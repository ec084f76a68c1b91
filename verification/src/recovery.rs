//! What survives when the process does not.
use crate::agreement;
use crate::checkpoint;
use crate::checkpoint::{Contents, SEGMENT_MAGIC};
use crate::commit;
use crate::encoding;
use crate::error::{Error, Result};
use crate::operation;
use crate::operation::Op;
use crate::query::{Query, SearchHit};
use crate::restoring;
use crate::scorer;
use crate::scorer::Scorer;
use crate::snapshot::Snapshot;
use crate::statistics;
use crate::wal;
use crate::wal::{base_content, base_generation, base_room, read_wal, replay, Commits, WAL_MAGIC};
use crate::writer;
use vstd::prelude::*;

verus! {

/// Opening a database with this checkpoint and this log gives the generation and
/// the contents of `current`.
pub open spec fn recovers(checkpoint: Snapshot, log: Seq<u8>, current: Snapshot) -> bool {
    wal::wal_contents(log) matches Ok((commits, valid)) && {
        let (generation, writes) = wal::replayed(checkpoint.generation, commits);
        &&& valid == log.len()
        &&& current.generation == generation
        &&& forall|rowid: i64| #[trigger]
            current.content(rowid) == operation::content_after(
                checkpoint.content(rowid),
                writes,
                rowid,
            )
    }
}

/// Opens a database: the newest checkpoint, if there is one, and behind it the
/// commits of the log. Gives the snapshot and the length to which the log has to be
/// cut; there is none where the documents would become too many to count.
pub fn recover(checkpoint: Option<Snapshot>, log: &[u8]) -> (result: Result<
    Option<(Snapshot, usize)>,
>)
    requires
        checkpoint matches Some(base) ==> base.wf(),
    ensures
        match wal::wal_contents(log@) {
            Ok((commits, valid)) => result matches Ok(opened) && match opened {
                Some((current, len)) => {
                    &&& current.wf()
                    &&& len == valid
                    &&& len <= log@.len()
                    &&& current.generation == wal::replayed(base_generation(checkpoint), commits).0
                    &&& forall|rowid: i64| #[trigger]
                        current.content(rowid) == operation::content_after(
                            base_content(checkpoint, rowid),
                            wal::replayed(base_generation(checkpoint), commits).1,
                            rowid,
                        )
                    &&& checkpoint matches Some(base) ==> recovers(
                        base,
                        log@.take(len as int),
                        current,
                    )
                    &&& (checkpoint matches Some(base) ==> base.ordered()) ==> current.ordered()
                    &&& (checkpoint matches Some(base) ==> base.faithful()) ==> current.faithful()
                    &&& (checkpoint matches Some(base) ==> base.well_fielded())
                        ==> current.well_fielded()
                },
                None => wal::overflows(checkpoint, commits) && !base_room(
                    checkpoint,
                    wal::document_count(commits),
                ),
            },
            Err(error) => result == Err::<Option<(Snapshot, usize)>, Error>(error),
        },
{
    let (commits, len) = match read_wal(log) {
        Ok(contents) => contents,
        Err(error) => return Err(error),
    };
    proof {
        wal::truncated_log_is_sound(log@);
    }
    let base = match checkpoint {
        Some(base) => base,
        None => Snapshot::default(),
    };
    let ghost all = wal::shown(commits@);
    match replay(base, commits) {
        Some(current) => {
            assert forall|rowid: i64| base.content(rowid) == #[trigger] base_content(
                checkpoint,
                rowid,
            ) by {}
            Ok(Some((current, len)))
        },
        None => {
            proof {
                let (index, state) = choose|index: int, state: Snapshot|
                    wal::lacks_room(Some(base), all, index, state);
                assert(wal::lacks_room(checkpoint, all, index, state)) by {
                    assert forall|rowid: i64| #[trigger]
                        state.content(rowid) == operation::content_after(
                            base_content(checkpoint, rowid),
                            wal::replayed(base_generation(checkpoint), all.take(index)).1,
                            rowid,
                        ) by {
                        assert(base.content(rowid) == base_content(checkpoint, rowid));
                    }
                }
            }
            Ok(None)
        },
    }
}

/// Replaying reaches at least the generation of the last commit.
proof fn lemma_reached(generation: u64, commits: Commits)
    ensures
        wal::replayed(generation, commits).0 >= wal::last_generation(commits),
        wal::replayed(generation, commits).0 >= generation,
    decreases commits.len(),
{
    if commits.len() > 0 {
        lemma_reached(generation, commits.drop_last());
    }
}

/// A commit whose record was written is there when the database is opened again.
pub proof fn commit_survives_reopening(
    checkpoint: Snapshot,
    log: Seq<u8>,
    current: Snapshot,
    writes: Seq<Op>,
    record: Seq<u8>,
    next: Snapshot,
)
    requires
        recovers(checkpoint, log, current),
        current.generation < u64::MAX,
        next.generation == current.generation + 1,
        forall|rowid: i64| #[trigger]
            next.content(rowid) == operation::content_after(
                current.content(rowid),
                writes,
                rowid,
            ),
        commit::storable_commit(writes),
        forall|i: int| 0 <= i < writes.len() ==> (#[trigger] writes[i]).valid(),
        writer::sealed(next.generation, writes) == Ok::<Seq<u8>, Seq<char>>(record),
    ensures
        recovers(checkpoint, log + record, next),
{
    let (commits, valid) = wal::wal_contents(log)->Ok_0;
    let (reached, earlier) = wal::replayed(checkpoint.generation, commits);
    lemma_reached(checkpoint.generation, commits);
    wal::appended_commit_is_read(log, commits, next.generation, writes);
    let longer = commits.push((next.generation, writes));
    assert(longer.drop_last() =~= commits);
    assert forall|rowid: i64| #[trigger]
        next.content(rowid) == operation::content_after(
            checkpoint.content(rowid),
            earlier + writes,
            rowid,
        ) by {
        operation::last_op_of_both(earlier, writes, rowid);
        assert(current.content(rowid) == operation::content_after(
            checkpoint.content(rowid),
            earlier,
            rowid,
        ));
    }
}

/// The states that a row of commits leads through, each with its record.
pub open spec fn committed_in_turn(
    states: Seq<Snapshot>,
    commits: Seq<Seq<Op>>,
    records: Seq<Seq<u8>>,
) -> bool {
    &&& states.len() == commits.len() + 1
    &&& records.len() == commits.len()
    &&& forall|i: int|
        0 <= i < commits.len() ==> #[trigger] committed_as(
            states[i],
            commits[i],
            records[i],
            states[i + 1],
        )
}

/// The commit of these writes, with this record, leads from one state to the next.
pub open spec fn committed_as(
    current: Snapshot,
    writes: Seq<Op>,
    record: Seq<u8>,
    next: Snapshot,
) -> bool {
    &&& next.generation == current.generation + 1
    &&& forall|rowid: i64| #[trigger]
        next.content(rowid) == operation::content_after(current.content(rowid), writes, rowid)
    &&& commit::storable_commit(writes)
    &&& forall|i: int| 0 <= i < writes.len() ==> (#[trigger] writes[i]).valid()
    &&& writer::sealed(next.generation, writes) == Ok::<Seq<u8>, Seq<char>>(record)
}

/// Without the last of the commits the others are in turn still.
proof fn lemma_fewer_committed(
    states: Seq<Snapshot>,
    commits: Seq<Seq<Op>>,
    records: Seq<Seq<u8>>,
)
    requires
        committed_in_turn(states, commits, records),
        commits.len() > 0,
    ensures
        committed_in_turn(states.drop_last(), commits.drop_last(), records.drop_last()),
{
    let (earlier, fewer, kept) = (states.drop_last(), commits.drop_last(), records.drop_last());
    assert forall|i: int| 0 <= i < fewer.len() implies #[trigger] committed_as(
        earlier[i],
        fewer[i],
        kept[i],
        earlier[i + 1],
    ) by {
        assert(committed_as(states[i], commits[i], records[i], states[i + 1]));
    }
}

/// Commits in a row give as many generations, and their writes count in their order.
pub proof fn commits_in_a_row_add_up(
    states: Seq<Snapshot>,
    commits: Seq<Seq<Op>>,
    records: Seq<Seq<u8>>,
)
    requires
        committed_in_turn(states, commits, records),
    ensures
        states.last().generation == states[0].generation + commits.len(),
        forall|rowid: i64| #[trigger]
            states.last().content(rowid) == operation::content_after(
                states[0].content(rowid),
                commits.flatten(),
                rowid,
            ),
    decreases commits.len(),
{
    if commits.len() == 0 {
        assert(commits.flatten() =~= Seq::empty());
    } else {
        let last = commits.len() - 1;
        let (fewer, writes) = (commits.drop_last(), commits.last());
        let earlier = states.drop_last();
        lemma_fewer_committed(states, commits, records);
        commits_in_a_row_add_up(earlier, fewer, records.drop_last());
        assert(committed_as(states[last], commits[last], records[last], states[last + 1]));
        assert(earlier.last() == states[last]);
        commits.lemma_flatten_and_flatten_alt_are_equivalent();
        fewer.lemma_flatten_and_flatten_alt_are_equivalent();
        assert(commits.flatten() =~= fewer.flatten() + writes);
        assert forall|rowid: i64| #[trigger]
            states.last().content(rowid) == operation::content_after(
                states[0].content(rowid),
                commits.flatten(),
                rowid,
            ) by {
            operation::last_op_of_both(fewer.flatten(), writes, rowid);
            assert(states[last].content(rowid) == operation::content_after(
                states[0].content(rowid),
                fewer.flatten(),
                rowid,
            ));
        }
    }
}

/// All commits in a row are there when the database is opened again.
pub proof fn commits_in_a_row_survive(
    checkpoint: Snapshot,
    log: Seq<u8>,
    states: Seq<Snapshot>,
    commits: Seq<Seq<Op>>,
    records: Seq<Seq<u8>>,
)
    requires
        recovers(checkpoint, log, states[0]),
        committed_in_turn(states, commits, records),
    ensures
        recovers(checkpoint, log + records.flatten(), states.last()),
    decreases commits.len(),
{
    if commits.len() == 0 {
        assert(log + records.flatten() =~= log);
    } else {
        let last = commits.len() - 1;
        let (fewer, writes, kept) = (commits.drop_last(), commits.last(), records.drop_last());
        let earlier = states.drop_last();
        lemma_fewer_committed(states, commits, records);
        commits_in_a_row_survive(checkpoint, log, earlier, fewer, kept);
        assert(committed_as(states[last], commits[last], records[last], states[last + 1]));
        assert(earlier.last() == states[last]);
        commit_survives_reopening(
            checkpoint,
            log + kept.flatten(),
            states[last],
            writes,
            records.last(),
            states.last(),
        );
        records.lemma_flatten_and_flatten_alt_are_equivalent();
        kept.lemma_flatten_and_flatten_alt_are_equivalent();
        assert(log + records.flatten() =~= log + kept.flatten() + records.last());
    }
}

/// Where the counters could take the documents of a commit, and those of the log
/// before it, they can take them again when the database is opened again.
pub proof fn commit_with_room_reopens(
    checkpoint: Snapshot,
    log: Seq<u8>,
    current: Snapshot,
    writes: Seq<Op>,
    record: Seq<u8>,
    next: Snapshot,
)
    requires
        checkpoint.faithful(),
        recovers(checkpoint, log, current),
        !wal::overflows(Some(checkpoint), wal::wal_contents(log)->Ok_0.0),
        current.wf(),
        current.faithful(),
        current.room(operation::document_count(writes)),
        committed_as(current, writes, record, next),
    ensures
        !wal::overflows(Some(checkpoint), wal::wal_contents(log + record)->Ok_0.0),
{
    let (commits, valid) = wal::wal_contents(log)->Ok_0;
    lemma_reached(checkpoint.generation, commits);
    wal::appended_commit_is_read(log, commits, next.generation, writes);
    let longer = commits.push((next.generation, writes));
    assert(wal::wal_contents(log + record)->Ok_0.0 == longer);
    assert forall|index: int, state: Snapshot|
        !wal::lacks_room(Some(checkpoint), longer, index, state) by {
        if wal::lacks_room(Some(checkpoint), longer, index, state) {
            if index < commits.len() {
                assert(longer.take(index) =~= commits.take(index));
                assert(wal::lacks_room(Some(checkpoint), commits, index, state));
            } else {
                assert(longer.take(index) =~= commits);
                assert forall|rowid: i64| #[trigger]
                    current.content(rowid) == state.content(rowid) by {
                    assert(state.content(rowid) == operation::content_after(
                        base_content(Some(checkpoint), rowid),
                        wal::replayed(checkpoint.generation, commits).1,
                        rowid,
                    ));
                }
                statistics::same_contents_same_statistics(current, state, Seq::empty());
            }
        }
    }
}

/// A database without a checkpoint starts as from the checkpoint of nothing.
pub proof fn no_checkpoint_is_an_empty_one(empty: Snapshot, commits: Commits)
    requires
        empty.faithful(),
        empty.generation == 0,
        forall|rowid: i64| (#[trigger] empty.content(rowid)) is None,
    ensures
        wal::overflows(None, commits) == wal::overflows(Some(empty), commits),
{
    assert forall|index: int, state: Snapshot| #[trigger]
        wal::lacks_room(None, commits, index, state) == wal::lacks_room(
            Some(empty),
            commits,
            index,
            state,
        ) by {
        assert forall|rowid: i64| base_content(None, rowid) == #[trigger] base_content(
            Some(empty),
            rowid,
        ) by {
            assert(empty.content(rowid) is None);
        }
        let writes = wal::replayed(0, commits.take(index)).1;
        assert(forall|rowid: i64|
            operation::content_after(base_content(None, rowid), writes, rowid)
                == #[trigger] operation::content_after(
                base_content(Some(empty), rowid),
                writes,
                rowid,
            ));
    }
    if wal::overflows(Some(empty), commits) {
        let (index, state) = choose|index: int, state: Snapshot|
            wal::lacks_room(Some(empty), commits, index, state);
        assert(wal::lacks_room(None, commits, index, state));
    }
}

/// A database that took all of its commits in a row opens again.
pub proof fn commits_in_a_row_reopen(
    checkpoint: Snapshot,
    log: Seq<u8>,
    states: Seq<Snapshot>,
    commits: Seq<Seq<Op>>,
    records: Seq<Seq<u8>>,
)
    requires
        checkpoint.faithful(),
        recovers(checkpoint, log, states[0]),
        !wal::overflows(Some(checkpoint), wal::wal_contents(log)->Ok_0.0),
        committed_in_turn(states, commits, records),
        forall|i: int|
            0 <= i < commits.len() ==> {
                let state = #[trigger] states[i];
                &&& state.wf()
                &&& state.faithful()
                &&& state.room(operation::document_count(commits[i]))
            },
    ensures
        !wal::overflows(
            Some(checkpoint),
            wal::wal_contents(log + records.flatten())->Ok_0.0,
        ),
    decreases commits.len(),
{
    if commits.len() == 0 {
        assert(log + records.flatten() =~= log);
    } else {
        let last = commits.len() - 1;
        let (fewer, writes, kept) = (commits.drop_last(), commits.last(), records.drop_last());
        let earlier = states.drop_last();
        lemma_fewer_committed(states, commits, records);
        assert forall|i: int| 0 <= i < fewer.len() implies {
            let state = #[trigger] earlier[i];
            &&& state.wf()
            &&& state.faithful()
            &&& state.room(operation::document_count(fewer[i]))
        } by {
            assert(earlier[i] == states[i]);
        }
        commits_in_a_row_reopen(checkpoint, log, earlier, fewer, kept);
        commits_in_a_row_survive(checkpoint, log, earlier, fewer, kept);
        assert(committed_as(states[last], commits[last], records[last], states[last + 1]));
        assert(earlier.last() == states[last]);
        commit_with_room_reopens(
            checkpoint,
            log + kept.flatten(),
            states[last],
            writes,
            records.last(),
            states.last(),
        );
        records.lemma_flatten_and_flatten_alt_are_equivalent();
        kept.lemma_flatten_and_flatten_alt_are_equivalent();
        assert(log + records.flatten() =~= log + kept.flatten() + records.last());
    }
}

/// Over commits in a row the number of documents grows by the number of rowids that
/// are new, less those that are gone; where nothing is deleted, none is gone.
pub proof fn commits_in_a_row_count(
    states: Seq<Snapshot>,
    commits: Seq<Seq<Op>>,
    records: Seq<Seq<u8>>,
)
    requires
        committed_in_turn(states, commits, records),
        states[0].wf(),
        states.last().wf(),
    ensures
        ({
            let (before, after) = (states[0].rowids(), states.last().rowids());
            &&& before.finite() && after.finite()
            &&& states.last().live_docs + before.difference(after).len() == states[0].live_docs
                + after.difference(before).len()
            &&& forall|rowid: i64| #[trigger]
                after.contains(rowid) == (operation::content_after(
                    states[0].content(rowid),
                    commits.flatten(),
                    rowid,
                ) is Some)
            &&& (forall|i: int|
                0 <= i < commits.flatten().len() ==> (#[trigger] commits.flatten()[i]).content()
                    is Some) ==> before.subset_of(after) && states.last().live_docs
                == states[0].live_docs + after.difference(before).len()
        }),
{
    let (first, last) = (states[0], states.last());
    let (before, after) = (first.rowids(), last.rowids());
    let writes = commits.flatten();
    commits_in_a_row_add_up(states, commits, records);
    first.live_docs_counts_rowids();
    last.live_docs_counts_rowids();
    lemma_difference_count(before, after);
    lemma_difference_count(after, before);
    assert(before.intersect(after) =~= after.intersect(before));
    assert forall|rowid: i64| #[trigger]
        after.contains(rowid) == (operation::content_after(first.content(rowid), writes, rowid)
            is Some) by {
        assert(last.content(rowid) == operation::content_after(
            first.content(rowid),
            writes,
            rowid,
        ));
    }
    if forall|i: int| 0 <= i < writes.len() ==> (#[trigger] writes[i]).content() is Some {
        assert forall|rowid: i64| before.contains(rowid) implies #[trigger] after.contains(
            rowid,
        ) by {
            operation::lemma_last_op_is_write(writes, rowid);
        }
        assert(before.difference(after) =~= Set::empty());
    }
}

/// A set is what it shares with another and what it has alone.
proof fn lemma_difference_count(left: Set<i64>, right: Set<i64>)
    requires
        left.finite(),
    ensures
        left.len() == left.intersect(right).len() + left.difference(right).len(),
{
    let (shared, alone) = (left.intersect(right), left.difference(right));
    vstd::set_lib::lemma_set_disjoint_lens(shared, alone);
    assert(shared + alone =~= left);
}

/// A commit whose record was cut off is not there when the database is opened
/// again, and everything before it is.
pub proof fn interrupted_commit_leaves_no_trace(
    checkpoint: Snapshot,
    log: Seq<u8>,
    current: Snapshot,
    payload: Seq<u8>,
    kept: nat,
)
    requires
        recovers(checkpoint, log, current),
        payload.len() <= wal::MAX_WAL_RECORD_BYTES,
        kept < wal::frame_bytes(WAL_MAGIC@, payload).len(),
    ensures
        ({
            let torn = log + wal::frame_bytes(WAL_MAGIC@, payload).take(kept as int);
            &&& wal::wal_contents(torn) == wal::wal_contents(log)
            &&& torn.take(log.len() as int) == log
        }),
{
    let (commits, valid) = wal::wal_contents(log)->Ok_0;
    wal::torn_record_is_dropped(log, commits, payload, kept);
    assert((log + wal::frame_bytes(WAL_MAGIC@, payload).take(kept as int)).take(log.len() as int)
        =~= log);
}

proof fn lemma_covered(generation: u64, commits: Commits)
    requires
        forall|i: int| 0 <= i < commits.len() ==> (#[trigger] commits[i]).0 <= generation,
    ensures
        wal::replayed(generation, commits) == (generation, Seq::<Op>::empty()),
    decreases commits.len(),
{
    if commits.len() > 0 {
        assert(commits[commits.len() - 1] == commits.last());
        assert forall|i: int| 0 <= i < commits.drop_last().len() implies (
        #[trigger] commits.drop_last()[i]).0 <= generation by {
            assert(commits[i].0 <= generation);
        }
        lemma_covered(generation, commits.drop_last());
    }
}

/// A checkpoint of the current contents makes the log superfluous: with it the
/// database opens to the same generation and contents whether the log is still
/// there or already emptied.
pub proof fn checkpoint_covers_log(
    checkpoint: Snapshot,
    log: Seq<u8>,
    current: Snapshot,
    newer: Snapshot,
)
    requires
        recovers(checkpoint, log, current),
        newer.generation == current.generation,
        forall|rowid: i64| #[trigger] newer.content(rowid) == current.content(rowid),
    ensures
        recovers(newer, log, current),
        recovers(newer, Seq::empty(), current),
{
    let (commits, valid) = wal::wal_contents(log)->Ok_0;
    wal::read_commits_are_sound(log);
    lemma_reached(checkpoint.generation, commits);
    assert forall|i: int| 0 <= i < commits.len() implies (#[trigger] commits[i]).0
        <= newer.generation by {
        assert(commits[commits.len() - 1] == commits.last());
    }
    lemma_covered(newer.generation, commits);
    let empty = Seq::<u8>::empty();
    assert(empty.skip(0) =~= empty);
    assert(wal::wal_contents(empty) == Ok::<(Commits, nat), Error>((Seq::empty(), 0)));
    lemma_covered(newer.generation, Seq::empty());
    assert forall|rowid: i64| #[trigger]
        current.content(rowid) == operation::content_after(
            newer.content(rowid),
            Seq::empty(),
            rowid,
        ) by {
        assert(newer.content(rowid) == current.content(rowid));
    }
}

/// The checkpoint of a compacted snapshot takes the place of an older checkpoint
/// and of the log: with it the database opens to the same generation and contents
/// whether the log is still there or already emptied.
pub proof fn optimized_database_reopens(
    checkpoint: Snapshot,
    log: Seq<u8>,
    current: Snapshot,
    compacted: Snapshot,
    payload: Seq<u8>,
    contents: Contents,
    read: Snapshot,
)
    requires
        recovers(checkpoint, log, current),
        compacted.wf(),
        compacted.generation == current.generation,
        forall|rowid: i64| #[trigger] compacted.content(rowid) == current.content(rowid),
        compacted.all_live(),
        encoding::encoded(compacted) == Ok::<Seq<u8>, Seq<char>>(payload),
        payload.len() <= u32::MAX,
        checkpoint::parse_checkpoint(wal::frame_bytes(SEGMENT_MAGIC@, payload)) == Ok::<
            Contents,
            Error,
        >(contents),
        checkpoint::opens_to(contents, read),
    ensures
        recovers(read, log, current),
        recovers(read, Seq::empty(), current),
{
    restoring::written_checkpoint_is_read(compacted);
    restoring::restored_snapshot_is_the_same(compacted, read);
    assert forall|rowid: i64| #[trigger] read.content(rowid) == current.content(rowid) by {
        assert(compacted.content(rowid) == current.content(rowid));
    }
    checkpoint_covers_log(checkpoint, log, current, read);
}

/// A database that was optimized and opened again answers every query as before.
pub proof fn reopened_database_answers_alike<S: Scorer>(
    current: Snapshot,
    compacted: Snapshot,
    payload: Seq<u8>,
    contents: Contents,
    read: Snapshot,
    query: Query,
    limit: int,
    exhaustive: bool,
    scorer: &S,
    before: Seq<SearchHit>,
    after: Seq<SearchHit>,
)
    requires
        current.wf(),
        current.ordered(),
        current.faithful(),
        compacted.wf(),
        compacted.faithful(),
        forall|rowid: i64| #[trigger] compacted.content(rowid) == current.content(rowid),
        compacted.all_live(),
        encoding::encoded(compacted) == Ok::<Seq<u8>, Seq<char>>(payload),
        payload.len() <= u32::MAX,
        checkpoint::parse_checkpoint(wal::frame_bytes(SEGMENT_MAGIC@, payload)) == Ok::<
            Contents,
            Error,
        >(contents),
        checkpoint::opens_to(contents, read),
        limit > 0,
        scorer::functional(scorer),
        exhaustive || current.bounds_hold(query, scorer) || before.len() < limit,
        exhaustive || read.bounds_hold(query, scorer) || after.len() < limit,
        current.answers(query, limit, exhaustive, scorer, before),
        read.answers(query, limit, exhaustive, scorer, after),
    ensures
        agreement::same_hits(before, after),
{
    restoring::written_checkpoint_is_read(compacted);
    restoring::restored_snapshot_is_the_same(compacted, read);
    assert forall|rowid: i64| #[trigger] current.content(rowid) == read.content(rowid) by {
        assert(compacted.content(rowid) == current.content(rowid));
    }
    agreement::same_contents_same_hits(
        current,
        read,
        query,
        limit,
        exhaustive,
        scorer,
        before,
        after,
    );
}

} // verus!
