//! What writes leave in the database, told by the writes.
use crate::commit;
use crate::error::Result;
use crate::operation;
use crate::operation::{
    apply_operations, canonicalize_operations, content_after, try_apply_operations,
    validate_operations, Op, Operation,
};
use crate::snapshot;
use crate::snapshot::Snapshot;
use crate::text;
use crate::writer;
use crate::writer::{begin_commit, next_generation, PreparedCommit};
use vstd::prelude::*;

verus! {

/// The write is one to this rowid.
pub open spec fn concerns(op: Op, rowid: i64) -> bool {
    ||| op matches Op::Upsert { rowid: own, fields } && own == rowid
    ||| op matches Op::Delete { rowid: own } && own == rowid
}

/// What a rowid holds after a write to it.
pub open spec fn leaves(op: Op) -> Option<Seq<Seq<char>>> {
    match op {
        Op::Upsert { rowid, fields } => Some(fields),
        Op::Delete { rowid } => None,
    }
}

/// The write at this place is the last to its rowid.
pub open spec fn decides(writes: Seq<Op>, at: int, rowid: i64) -> bool {
    &&& 0 <= at < writes.len()
    &&& concerns(writes[at], rowid)
    &&& forall|i: int| at < i < writes.len() ==> !concerns(#[trigger] writes[i], rowid)
}

/// None of the writes is to this rowid.
pub open spec fn spares(writes: Seq<Op>, rowid: i64) -> bool {
    forall|i: int| 0 <= i < writes.len() ==> !concerns(#[trigger] writes[i], rowid)
}

/// Of several writes to a rowid the last decides what it holds; what is not written to
/// stays as it was.
pub proof fn the_last_write_decides(
    before: Option<Seq<Seq<char>>>,
    writes: Seq<Op>,
    rowid: i64,
)
    ensures
        forall|at: int| #[trigger]
            decides(writes, at, rowid) ==> content_after(before, writes, rowid) == leaves(
                writes[at],
            ),
        spares(writes, rowid) ==> content_after(before, writes, rowid) == before,
        spares(writes, rowid) || exists|at: int| decides(writes, at, rowid),
    decreases writes.len(),
{
    if writes.len() > 0 {
        let fewer = writes.drop_last();
        let last = writes.len() - 1;
        the_last_write_decides(before, fewer, rowid);
        assert(writes[last] == writes.last());
        if concerns(writes[last], rowid) {
            assert(decides(writes, last, rowid));
        } else {
            assert forall|at: int| #[trigger] decides(writes, at, rowid) implies decides(
                fewer,
                at,
                rowid,
            ) by {
                assert(fewer[at] == writes[at]);
                assert forall|i: int| at < i < fewer.len() implies !concerns(
                    #[trigger] fewer[i],
                    rowid,
                ) by {
                    assert(fewer[i] == writes[i]);
                }
            }
            if spares(fewer, rowid) {
                assert forall|i: int| 0 <= i < writes.len() implies !concerns(
                    #[trigger] writes[i],
                    rowid,
                ) by {
                    if i < last {
                        assert(fewer[i] == writes[i]);
                    }
                }
            } else {
                let at = choose|at: int| decides(fewer, at, rowid);
                assert(writes[at] == fewer[at]);
                assert forall|i: int| at < i < writes.len() implies !concerns(
                    #[trigger] writes[i],
                    rowid,
                ) by {
                    if i < last {
                        assert(fewer[i] == writes[i]);
                    }
                }
                assert(decides(writes, at, rowid));
            }
            if spares(writes, rowid) {
                assert forall|i: int| 0 <= i < fewer.len() implies !concerns(
                    #[trigger] fewer[i],
                    rowid,
                ) by {
                    assert(fewer[i] == writes[i]);
                }
            }
        }
        if spares(writes, rowid) {
            assert(!concerns(writes[last], rowid));
        }
    }
}

/// The contents after the writes.
pub open spec fn shows_writes(before: Snapshot, writes: Seq<Op>, after: Snapshot) -> bool {
    &&& forall|at: int, rowid: i64| #[trigger]
        decides(writes, at, rowid) ==> after.content(rowid) == leaves(writes[at])
    &&& forall|rowid: i64| #[trigger]
        spares(writes, rowid) ==> after.content(rowid) == before.content(rowid)
}

pub(crate) proof fn lemma_shows(before: Snapshot, writes: Seq<Op>, after: Snapshot)
    requires
        forall|rowid: i64| #[trigger]
            after.content(rowid) == content_after(before.content(rowid), writes, rowid),
    ensures
        shows_writes(before, writes, after),
{
    assert forall|at: int, rowid: i64| #[trigger] decides(writes, at, rowid) implies after.content(
        rowid,
    ) == leaves(writes[at]) by {
        the_last_write_decides(before.content(rowid), writes, rowid);
        assert(after.content(rowid) == content_after(before.content(rowid), writes, rowid));
    }
    assert forall|rowid: i64| #[trigger] spares(writes, rowid) implies after.content(rowid)
        == before.content(rowid) by {
        the_last_write_decides(before.content(rowid), writes, rowid);
        assert(after.content(rowid) == content_after(before.content(rowid), writes, rowid));
    }
}

/// The writes, one by one, as a caller hands them in.
pub open spec fn handed_in(operations: Seq<Operation>, writes: Seq<Op>) -> bool {
    &&& writes.len() == operations.len()
    &&& forall|i: int|
        0 <= i < operations.len() ==> #[trigger] writes[i] == match operations[i] {
            Operation::Upsert { rowid, fields } => Op::Upsert {
                rowid,
                fields: Seq::new(fields@.len(), |f: int| fields@[f]@),
            },
            Operation::Delete { rowid } => Op::Delete { rowid },
        }
}

pub(crate) proof fn lemma_handed_in(operations: Seq<Operation>, writes: Seq<Op>)
    requires
        handed_in(operations, writes),
    ensures
        operation::ops(operations) == writes,
{
    assert forall|i: int| 0 <= i < operations.len() implies operation::ops(operations)[i]
        == #[trigger] writes[i] by {
        match operations[i] {
            Operation::Upsert { rowid, fields } => {
                assert(text::texts(fields@) =~= Seq::new(fields@.len(), |f: int| fields@[f]@));
            },
            Operation::Delete { rowid } => {},
        }
    }
    assert(operation::ops(operations) =~= writes);
}

/// What contracts see of writes is what is handed in.
pub(crate) proof fn lemma_ops_handed_in(operations: Seq<Operation>)
    ensures
        handed_in(operations, operation::ops(operations)),
{
    let writes = operation::ops(operations);
    assert forall|i: int| 0 <= i < operations.len() implies #[trigger] writes[i]
        == match operations[i] {
        Operation::Upsert { rowid, fields } => Op::Upsert {
            rowid,
            fields: Seq::new(fields@.len(), |f: int| fields@[f]@),
        },
        Operation::Delete { rowid } => Op::Delete { rowid },
    } by {
        match operations[i] {
            Operation::Upsert { rowid, fields } => {
                assert(text::texts(fields@) =~= Seq::new(fields@.len(), |f: int| fields@[f]@));
            },
            Operation::Delete { rowid } => {},
        }
    }
}

/// `apply_operations` gives a snapshot of the asked generation with what the writes
/// leave.
pub proof fn applied_operations_are_shown(
    current: &Snapshot,
    generation: u64,
    operations: Vec<Operation>,
    writes: Seq<Op>,
    next: Snapshot,
)
    requires
        current.wf(),
        handed_in(operations@, writes),
        current.room(operation::document_count(writes)),
        call_ensures(apply_operations, (current, generation, operations), next),
    ensures
        next.wf(),
        next.generation == generation,
        shows_writes(*current, writes, next),
        current.faithful() ==> next.faithful(),
{
    lemma_handed_in(operations@, writes);
    lemma_shows(*current, writes, next);
}

/// `try_apply_operations` does so wherever it gives a snapshot.
pub proof fn tried_operations_are_shown(
    current: &Snapshot,
    generation: u64,
    operations: Vec<Operation>,
    writes: Seq<Op>,
    result: Option<Snapshot>,
)
    requires
        current.wf(),
        handed_in(operations@, writes),
        call_ensures(try_apply_operations, (current, generation, operations), result),
    ensures
        result is Some <==> current.room(operation::document_count(writes)),
        result matches Some(next) ==> next.wf() && next.generation == generation && shows_writes(
            *current,
            writes,
            next,
        ),
{
    lemma_handed_in(operations@, writes);
    match result {
        Some(next) => {
            lemma_shows(*current, writes, next);
        },
        None => {},
    }
}

/// A commit writes what was handed in: `begin_commit` accepts the writes, `publish`
/// shows them.
pub proof fn committed_writes_are_shown(
    operations: Vec<Operation>,
    writes: Seq<Op>,
    begun: Result<Option<PreparedCommit>>,
    current: &Snapshot,
    generation: u64,
    next: Snapshot,
)
    requires
        handed_in(operations@, writes),
        call_ensures(begin_commit, (operations,), begun),
        begun is Ok && begun->Ok_0 is Some,
        current.wf(),
        current.room(operation::docs_of(begun->Ok_0->0.writes@).len()),
        call_ensures(PreparedCommit::publish, (begun->Ok_0->0, current, generation), next),
    ensures
        next.wf(),
        next.generation == generation,
        shows_writes(*current, writes, next),
        current.faithful() ==> next.faithful(),
        current.ordered() ==> next.ordered(),
{
    lemma_handed_in(operations@, writes);
    let canonical = operation::canonical_ops(writes);
    operation::canonical_form_exists(writes);
    assert forall|rowid: i64| #[trigger] next.content(rowid) == content_after(
        current.content(rowid),
        writes,
        rowid,
    ) by {
        operation::canonical_form_keeps_contents(
            canonical,
            writes,
            current.content(rowid),
            rowid,
        );
        assert(next.content(rowid) == content_after(current.content(rowid), canonical, rowid));
    }
    lemma_shows(*current, writes, next);
}

/// `begin_commit` has nothing to do without writes; it accepts writes whose documents
/// all have between one and 64 fields and that the log can store, and no others.
pub proof fn begun_commits_have_valid_documents(
    operations: Vec<Operation>,
    writes: Seq<Op>,
    begun: Result<Option<PreparedCommit>>,
)
    requires
        handed_in(operations@, writes),
        call_ensures(begin_commit, (operations,), begun),
    ensures
        begun is Ok && begun->Ok_0 is None <==> writes.len() == 0,
        begun is Ok && writes.len() > 0 ==> forall|i: int|
            0 <= i < writes.len() ==> well_formed(#[trigger] writes[i]),
        begun is Err && (forall|i: int|
            0 <= i < writes.len() ==> well_formed(#[trigger] writes[i]))
            ==> !commit::storable_commit(operation::canonical_ops(writes)),
{
    lemma_handed_in(operations@, writes);
    assert forall|i: int| 0 <= i < writes.len() implies well_formed(#[trigger] writes[i])
        == writes[i].valid() by {}
    if begun is Ok && writes.len() > 0 {
        assert forall|i: int| 0 <= i < writes.len() implies well_formed(#[trigger] writes[i]) by {
            assert(writes[i].valid());
        }
    }
}

/// A deletion, or a document of one to 64 fields.
pub open spec fn well_formed(op: Op) -> bool {
    match op {
        Op::Upsert { rowid, fields } => 0 < fields.len() && fields.len() < 65,
        Op::Delete { rowid } => true,
    }
}

/// `validate_operations` accepts exactly such writes.
pub proof fn valid_operations_are_well_formed(
    operations: &Vec<Operation>,
    writes: Seq<Op>,
    result: Result<()>,
)
    requires
        handed_in(operations@, writes),
        call_ensures(validate_operations, (operations,), result),
    ensures
        result is Ok <==> forall|i: int|
            0 <= i < writes.len() ==> well_formed(#[trigger] writes[i]),
{
    let all = operation::ops(operations@);
    assert(result is Ok <==> operation::all_valid(all));
    lemma_handed_in(operations@, writes);
    assert forall|i: int| 0 <= i < writes.len() implies well_formed(#[trigger] writes[i])
        == all[i].valid() by {}
}

/// It refuses a write by the first fault: a document without fields, or with too many.
pub proof fn the_first_fault_is_named(
    operations: &Vec<Operation>,
    writes: Seq<Op>,
    result: Result<()>,
    at: int,
)
    requires
        handed_in(operations@, writes),
        call_ensures(validate_operations, (operations,), result),
        0 <= at < writes.len(),
        !well_formed(writes[at]),
        forall|i: int| 0 <= i < at ==> well_formed(#[trigger] writes[i]),
    ensures
        result matches Err(error) && error.is_invalid_input(
            if writes[at]->fields.len() == 0 {
                "a document requires at least one field"@
            } else {
                "a document supports at most 64 fields"@
            },
        ),
{
    let all = operation::ops(operations@);
    lemma_handed_in(operations@, writes);
    assert forall|i: int| 0 <= i < writes.len() implies well_formed(#[trigger] writes[i])
        == all[i].valid() by {}
    assert(!all[at].valid());
    assert(!operation::all_valid(all));
    if let Err(error) = result {
        assert(operation::refusal(all, error));
        let i = choose|i: int|
            0 <= i < all.len() && !(#[trigger] all[i]).valid() && (forall|j: int|
                0 <= j < i ==> (#[trigger] all[j]).valid()) && (all[i] matches Op::Upsert {
                rowid,
                fields,
            } && if fields.len() == 0 {
                error.is_invalid_input("a document requires at least one field"@)
            } else {
                error.is_invalid_input("a document supports at most 64 fields"@)
            });
        assert(i == at) by {
            if i < at {
                assert(well_formed(writes[i]));
            } else if at < i {
                assert(all[at].valid());
            }
        }
    }
}

/// `canonicalize_operations` keeps of each rowid the write that decides, in the order
/// of the rowids.
pub proof fn canonical_operations_decide(
    operations: Vec<Operation>,
    writes: Seq<Op>,
    canonical: Vec<Operation>,
    kept: Seq<Op>,
)
    requires
        handed_in(operations@, writes),
        handed_in(canonical@, kept),
        call_ensures(canonicalize_operations, (operations,), canonical),
    ensures
        forall|at: int, rowid: i64| #[trigger]
            decides(writes, at, rowid) ==> kept.contains(writes[at]),
        forall|k: int|
            0 <= k < kept.len() ==> exists|at: int|
                decides(writes, at, (#[trigger] kept[k]).rowid()) && writes[at] == kept[k],
        forall|j: int, k: int|
            0 <= j < k < kept.len() ==> (#[trigger] kept[j]).rowid() < (#[trigger] kept[k]).rowid(),
{
    lemma_handed_in(operations@, writes);
    lemma_handed_in(canonical@, kept);
    assert forall|at: int, rowid: i64| #[trigger] decides(writes, at, rowid) implies kept.contains(
        writes[at],
    ) by {
        lemma_decides_last(writes, at, rowid);
        assert(operation::last_op(writes, rowid) == Some(writes[at]));
        let k = choose|k: int| 0 <= k < kept.len() && (#[trigger] kept[k]).rowid() == rowid;
        assert(operation::last_op(writes, kept[k].rowid()) == Some(kept[k]));
    }
    assert forall|k: int| 0 <= k < kept.len() implies exists|at: int|
        decides(writes, at, (#[trigger] kept[k]).rowid()) && writes[at] == kept[k] by {
        let rowid = kept[k].rowid();
        assert(operation::last_op(writes, rowid) == Some(kept[k]));
        lemma_last_decides(writes, rowid);
        let at = choose|at: int| decides(writes, at, rowid) && writes[at] == kept[k];
        assert(decides(writes, at, rowid) && writes[at] == kept[k]);
    }
}

proof fn lemma_decides_last(writes: Seq<Op>, at: int, rowid: i64)
    requires
        decides(writes, at, rowid),
    ensures
        operation::last_op(writes, rowid) == Some(writes[at]),
    decreases writes.len(),
{
    let last = writes.len() - 1;
    if at < last {
        assert(!concerns(writes[last], rowid));
        let fewer = writes.drop_last();
        assert(fewer[at] == writes[at]);
        assert forall|i: int| at < i < fewer.len() implies !concerns(
            #[trigger] fewer[i],
            rowid,
        ) by {
            assert(fewer[i] == writes[i]);
        }
        lemma_decides_last(fewer, at, rowid);
    }
}

proof fn lemma_last_decides(writes: Seq<Op>, rowid: i64)
    requires
        operation::last_op(writes, rowid) is Some,
    ensures
        exists|at: int| decides(writes, at, rowid) && Some(writes[at]) == operation::last_op(
            writes,
            rowid,
        ),
{
    the_last_write_decides(None, writes, rowid);
    if spares(writes, rowid) {
        operation::lemma_last_op_is_write(writes, rowid);
        operation::lemma_last_op_rowid(writes, rowid);
        let op = operation::last_op(writes, rowid)->0;
        let j = choose|j: int| 0 <= j < writes.len() && #[trigger] writes[j] == op;
        assert(!concerns(writes[j], rowid));
    } else {
        let at = choose|at: int| decides(writes, at, rowid);
        lemma_decides_last(writes, at, rowid);
    }
}

/// `Snapshot::with_commit` leaves the documents handed in, without the deleted ones
/// that are not written again, and all others as they were.
pub proof fn with_commit_leaves_the_documents(
    current: &Snapshot,
    generation: u64,
    docs: Vec<(i64, Vec<String>)>,
    deletes: Vec<i64>,
    next: Snapshot,
)
    requires
        current.wf(),
        current.room(docs@.len()),
        forall|i: int, j: int|
            0 <= i < j < docs@.len() ==> (#[trigger] docs@[i]).0 != (#[trigger] docs@[j]).0,
        call_ensures(Snapshot::with_commit, (current, generation, docs, deletes), next),
    ensures
        next.generation == generation,
        forall|d: int|
            0 <= d < docs@.len() ==> next.content((#[trigger] docs@[d]).0) == Some(
                text::texts(docs@[d].1@),
            ),
        forall|rowid: i64|
            (forall|d: int| 0 <= d < docs@.len() ==> (#[trigger] docs@[d]).0 != rowid)
                ==> #[trigger] next.content(rowid) == if deletes@.contains(rowid) {
                None
            } else {
                current.content(rowid)
            },
{
    assert forall|d: int| 0 <= d < docs@.len() implies next.content((#[trigger] docs@[d]).0)
        == Some(text::texts(docs@[d].1@)) by {
        let rowid = docs@[d].0;
        assert(snapshot::writes(docs@, rowid));
        let e = snapshot::written_index(docs@, rowid);
        assert(docs@[e].0 == rowid);
        assert(e == d);
        assert(next.content(rowid) == snapshot::written_content(
            current.content(rowid),
            docs@,
            deletes@,
            rowid,
        ));
    }
    assert forall|rowid: i64|
        (forall|d: int| 0 <= d < docs@.len() ==> (#[trigger] docs@[d]).0
            != rowid) implies #[trigger] next.content(rowid) == if deletes@.contains(rowid) {
        None
    } else {
        current.content(rowid)
    } by {
        assert(next.content(rowid) == snapshot::written_content(
            current.content(rowid),
            docs@,
            deletes@,
            rowid,
        ));
    }
}

/// `Snapshot::compacted` changes neither the generation nor any document. It leaves one
/// segment with the documents of the database in the order of their rowids and nothing
/// else, or none where there are no documents.
pub proof fn compaction_changes_no_document(current: &Snapshot, next: Snapshot)
    requires
        current.wf(),
        current.live_docs <= u32::MAX,
        call_ensures(Snapshot::compacted, (current,), next),
    ensures
        next.wf(),
        next.faithful(),
        next.generation == current.generation,
        forall|rowid: i64| #[trigger] next.content(rowid) == current.content(rowid),
        next.segments@.len() <= 1,
        next.segments@.len() == 0 <==> forall|rowid: i64| #[trigger] current.content(rowid) is None,
        forall|s: int, d: int| #[trigger]
            next.in_range(s, d) ==> current.content(next.doc(s, d).rowid) == Some(
                next.doc(s, d).texts(),
            ),
        forall|i: int, j: int|
            0 <= i < j < next.segments@[0].docs@.len() && next.segments@.len() == 1 ==> (
            #[trigger] next.segments@[0].docs@[i]).rowid < (
            #[trigger] next.segments@[0].docs@[j]).rowid,
{
    assert forall|s: int, d: int| #[trigger] next.in_range(s, d) implies current.content(
        next.doc(s, d).rowid,
    ) == Some(next.doc(s, d).texts()) by {
        assert(next.live(s, d));
        assert(next.content(next.doc(s, d).rowid) == Some(next.doc(s, d).texts()));
    }
    current.live_docs_counts_rowids();
    let rowids = current.rowids();
    if next.segments@.len() == 0 {
        assert(rowids =~= Set::empty());
        assert forall|rowid: i64| #[trigger] current.content(rowid) is None by {
            assert(!rowids.contains(rowid));
        }
    } else {
        let rowid = rowids.choose();
        assert(rowids.contains(rowid));
        assert(current.content(rowid) is Some);
    }
}

/// Generations go up by one.
pub proof fn generations_go_up_by_one(current: &Snapshot, result: Result<u64>)
    requires
        call_ensures(next_generation, (current,), result),
    ensures
        result is Ok <==> current.generation < u64::MAX,
        result matches Ok(generation) ==> generation == current.generation + 1,
{
}

/// A record of up to 256 MiB is written, a longer one is not.
pub proof fn records_are_limited(generation: u64, writes: Seq<Op>)
    ensures
        writer::sealed(generation, writes) is Ok <==> commit::commit_bytes(
            generation,
            writes,
        ).len() <= 256 * 1024 * 1024,
{
}

} // verus!
