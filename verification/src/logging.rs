//! What the log and the checkpoints give back, told by what was written to them.
use crate::checkpoint::{keep_newer, read_checkpoint, LEGACY_SEGMENT_MAGIC, SEGMENT_MAGIC};
use crate::codec;
use crate::commit;
use crate::commit::{commit_bytes, decode_commit, encode_commit};
use crate::decoding::decode_snapshot;
use crate::encoding::encode_snapshot;
use crate::error::{Error, Result};
use crate::operation;
use crate::operation::{Op, Operation};
use crate::recovery::recover;
use crate::restoring;
use crate::snapshot::Snapshot;
use crate::wal;
use crate::wal::{encode_frame, frame_bytes, read_wal, wal_contents, Commits, WAL_MAGIC};
use crate::writing;
use crate::writing::{handed_in, leaves, spares, well_formed};
use vstd::prelude::*;

verus! {

broadcast use crate::codec::le_bytes_len;

/// Files and records are known by their first eight bytes: `KSTWAL01` for a record of
/// the log, `KSTSEG02` for a checkpoint, `KSTSEG01` for one of the older kind.
pub proof fn files_are_known_by_their_first_bytes()
    ensures
        WAL_MAGIC@ == seq![
            'K' as u8,
            'S' as u8,
            'T' as u8,
            'W' as u8,
            'A' as u8,
            'L' as u8,
            '0' as u8,
            '1' as u8,
        ],
        SEGMENT_MAGIC@ == seq![
            'K' as u8,
            'S' as u8,
            'T' as u8,
            'S' as u8,
            'E' as u8,
            'G' as u8,
            '0' as u8,
            '2' as u8,
        ],
        LEGACY_SEGMENT_MAGIC@ == seq![
            'K' as u8,
            'S' as u8,
            'T' as u8,
            'S' as u8,
            'E' as u8,
            'G' as u8,
            '0' as u8,
            '1' as u8,
        ],
{
    assert(WAL_MAGIC@ =~= seq![
        'K' as u8,
        'S' as u8,
        'T' as u8,
        'W' as u8,
        'A' as u8,
        'L' as u8,
        '0' as u8,
        '1' as u8,
    ]);
    assert(SEGMENT_MAGIC@ =~= seq![
        'K' as u8,
        'S' as u8,
        'T' as u8,
        'S' as u8,
        'E' as u8,
        'G' as u8,
        '0' as u8,
        '2' as u8,
    ]);
    assert(LEGACY_SEGMENT_MAGIC@ =~= seq![
        'K' as u8,
        'S' as u8,
        'T' as u8,
        'S' as u8,
        'E' as u8,
        'G' as u8,
        '0' as u8,
        '1' as u8,
    ]);
}

/// The four digits of a number to the base 256, the lowest first.
pub open spec fn four_digits(value: nat) -> Seq<u8> {
    seq![
        (value % 256) as u8,
        (value / 0x100 % 256) as u8,
        (value / 0x1_0000 % 256) as u8,
        (value / 0x100_0000 % 256) as u8,
    ]
}

pub(crate) proof fn lemma_four(value: nat)
    ensures
        codec::le_bytes(value, 4) == four_digits(value),
{
    reveal_with_fuel(codec::le_bytes, 5);
    assert(codec::le_bytes(value, 4) =~= four_digits(value));
}

/// Numbers are written with their lowest byte first.
pub proof fn numbers_are_written_low_byte_first(small: u32, large: u64, signed: i64)
    ensures
        codec::u32_bytes(small) == four_digits(small as nat),
        codec::u64_bytes(large) == four_digits(large as nat) + four_digits(
            large as nat / 0x1_0000_0000,
        ),
        signed >= 0 ==> codec::i64_bytes(signed) == codec::u64_bytes(signed as u64),
        signed < 0 ==> codec::i64_bytes(signed) == codec::u64_bytes(
            (signed + 0x1_0000_0000_0000_0000) as u64,
        ),
{
    lemma_four(small as nat);
    lemma_eight(large as nat);
}

proof fn lemma_eight(value: nat)
    ensures
        codec::le_bytes(value, 8) == four_digits(value) + four_digits(value / 0x1_0000_0000),
{
    let (one, two, three, four) = (
        value / 256,
        value / 256 / 256,
        value / 256 / 256 / 256,
        value / 256 / 256 / 256 / 256,
    );
    assert(two == value / 0x1_0000);
    assert(three == value / 0x100_0000);
    assert(four == value / 0x1_0000_0000);
    let high = codec::le_bytes(four, 4);
    lemma_four(four);
    assert(codec::le_bytes(three, 5) == seq![(three % 256) as u8] + high);
    assert(codec::le_bytes(two, 6) == seq![(two % 256) as u8] + codec::le_bytes(three, 5));
    assert(codec::le_bytes(one, 7) == seq![(one % 256) as u8] + codec::le_bytes(two, 6));
    assert(codec::le_bytes(value, 8) == seq![(value % 256) as u8] + codec::le_bytes(one, 7));
    assert(codec::le_bytes(value, 8) =~= four_digits(value) + high);
}

/// A record is a header of sixteen bytes and what is kept in it: the first eight bytes
/// tell the kind, four the length and four the checksum.
pub proof fn records_have_a_header(magic: &[u8; 8], payload: &[u8], result: Result<Vec<u8>>)
    requires
        call_ensures(encode_frame, (magic, payload), result),
    ensures
        result is Ok <==> payload@.len() < 0x1_0000_0000,
        result matches Ok(record) ==> record@ == magic@ + four_digits(payload@.len())
            + four_digits(codec::crc32c(payload@) as nat) + payload@,
{
    lemma_four(payload@.len());
    lemma_four(codec::crc32c(payload@) as nat);
}

/// Commits that were written one after the other.
pub open spec fn well_kept(commits: Commits) -> bool {
    &&& forall|i: int|
        0 <= i < commits.len() ==> {
            let (generation, writes) = #[trigger] commits[i];
            &&& commit::storable_commit(writes)
            &&& forall|k: int| 0 <= k < writes.len() ==> well_formed(#[trigger] writes[k])
            &&& commit_bytes(generation, writes).len() <= 256 * 1024 * 1024
            &&& generation > 0
        }
    &&& forall|i: int, j: int|
        0 <= i < j < commits.len() ==> (#[trigger] commits[i]).0 < (#[trigger] commits[j]).0
}

/// The records of commits, one after the other.
pub open spec fn kept_as(commits: Commits) -> Seq<u8> {
    commits.map_values(
        |commit: (u64, Seq<Op>)| frame_bytes(WAL_MAGIC@, commit_bytes(commit.0, commit.1)),
    ).flatten()
}

/// A log of whole records is read as the commits that were written to it.
pub proof fn logs_give_back_their_commits(commits: Commits)
    requires
        well_kept(commits),
    ensures
        wal_contents(kept_as(commits)) == Ok::<(Commits, nat), Error>(
            (commits, kept_as(commits).len()),
        ),
    decreases commits.len(),
{
    let frame = |commit: (u64, Seq<Op>)| frame_bytes(WAL_MAGIC@, commit_bytes(commit.0, commit.1));
    let frames = commits.map_values(frame);
    if commits.len() == 0 {
        assert(frames =~= Seq::empty());
        assert(kept_as(commits) =~= Seq::empty());
        assert(Seq::<u8>::empty().skip(0) =~= Seq::empty());
        assert(commits =~= Seq::empty());
        assert(kept_as(commits).skip(0) =~= Seq::empty());
    } else {
        let fewer = commits.drop_last();
        let last = commits.len() - 1;
        let (generation, writes) = commits.last();
        assert(commits[last] == commits.last());
        assert(well_kept(fewer)) by {
            assert forall|i: int| 0 <= i < fewer.len() implies {
                let (generation, writes) = #[trigger] fewer[i];
                &&& commit::storable_commit(writes)
                &&& forall|k: int| 0 <= k < writes.len() ==> well_formed(#[trigger] writes[k])
                &&& commit_bytes(generation, writes).len() <= 256 * 1024 * 1024
                &&& generation > 0
            } by {
                assert(fewer[i] == commits[i]);
            }
            assert forall|i: int, j: int| 0 <= i < j < fewer.len() implies (
            #[trigger] fewer[i]).0 < (#[trigger] fewer[j]).0 by {
                assert(fewer[i] == commits[i] && fewer[j] == commits[j]);
            }
        }
        logs_give_back_their_commits(fewer);
        assert(wal::last_generation(fewer) < generation) by {
            if fewer.len() > 0 {
                assert(fewer.last() == commits[last - 1]);
            }
        }
        assert forall|k: int| 0 <= k < writes.len() implies (#[trigger] writes[k]).valid() by {
            assert(well_formed(writes[k]));
        }
        wal::appended_commit_is_read(kept_as(fewer), fewer, generation, writes);
        let shorter = fewer.map_values(frame);
        assert(frames.drop_last() =~= shorter);
        frames.lemma_flatten_and_flatten_alt_are_equivalent();
        shorter.lemma_flatten_and_flatten_alt_are_equivalent();
        assert(kept_as(commits) =~= kept_as(fewer) + frame(commits.last()));
        assert(fewer.push(commits.last()) =~= commits);
    }
}

/// `read_wal` gives the commits of such a log, all of it.
pub proof fn read_logs_give_back_their_commits(
    bytes: &[u8],
    commits: Commits,
    result: Result<(Vec<(u64, Vec<Operation>)>, usize)>,
)
    requires
        well_kept(commits),
        bytes@ == kept_as(commits),
        call_ensures(read_wal, (bytes,), result),
    ensures
        result matches Ok((found, valid)) && valid == bytes@.len() && found@.len() == commits.len()
            && forall|i: int|
            0 <= i < commits.len() ==> (#[trigger] found@[i]).0 == commits[i].0 && handed_in(
                found@[i].1@,
                commits[i].1,
            ),
{
    logs_give_back_their_commits(commits);
    let (found, valid) = result->Ok_0;
    assert(wal::shown(found@) == commits);
    assert forall|i: int| 0 <= i < commits.len() implies (#[trigger] found@[i]).0 == commits[i].0
        && handed_in(found@[i].1@, commits[i].1) by {
        assert(wal::shown(found@)[i] == (found@[i].0, operation::ops(found@[i].1@)));
        writing::lemma_ops_handed_in(found@[i].1@);
    }
}

/// Bytes behind the records of a log that are long enough for a header but do not begin
/// as a record does are not passed over.
pub proof fn foreign_bytes_are_refused(commits: Commits, tail: Seq<u8>)
    requires
        well_kept(commits),
        tail.len() >= 16,
        tail.take(8) != WAL_MAGIC@,
    ensures
        wal_contents(kept_as(commits) + tail) matches Err(Error::Corrupt(message)),
{
    let log = kept_as(commits);
    logs_give_back_their_commits(commits);
    wal::lemma_log_extends(log, tail, 0, Seq::empty(), commits);
    assert((log + tail).skip(log.len() as int) =~= tail);
}

/// Fewer bytes than a header behind the records are passed over: a record that was cut
/// off.
pub proof fn cut_headers_are_passed_over(commits: Commits, tail: Seq<u8>)
    requires
        well_kept(commits),
        tail.len() < 16,
    ensures
        wal_contents(kept_as(commits) + tail) == Ok::<(Commits, nat), Error>(
            (commits, kept_as(commits).len()),
        ),
{
    let log = kept_as(commits);
    logs_give_back_their_commits(commits);
    wal::lemma_log_extends(log, tail, 0, Seq::empty(), commits);
    assert((log + tail).skip(log.len() as int) =~= tail);
}

/// A record that claims to hold more than 256 MiB is refused, whether it is all there or
/// not.
pub proof fn overlong_records_are_refused(commits: Commits, len: u32, rest: Seq<u8>)
    requires
        well_kept(commits),
        len > 256 * 1024 * 1024,
        rest.len() >= 4,
    ensures
        wal_contents(kept_as(commits) + (WAL_MAGIC@ + four_digits(len as nat) + rest)) matches Err(
            Error::Corrupt(message),
        ),
{
    let log = kept_as(commits);
    let tail = WAL_MAGIC@ + four_digits(len as nat) + rest;
    logs_give_back_their_commits(commits);
    wal::lemma_log_extends(log, tail, 0, Seq::empty(), commits);
    assert((log + tail).skip(log.len() as int) =~= tail);
    lemma_four(len as nat);
    assert(tail.take(8) =~= WAL_MAGIC@);
    assert(tail.subrange(8, 12) =~= codec::le_bytes(len as nat, 4));
    vstd::arithmetic::power2::lemma2_to64();
    codec::le_round_trip(len as nat, 4);
}

/// A record whose generation is not above those before it is refused.
pub proof fn stale_records_are_refused(commits: Commits, generation: u64, writes: Seq<Op>)
    requires
        well_kept(commits),
        commits.len() == 0 ==> generation == 0,
        commits.len() > 0 ==> generation <= commits.last().0,
        commit::storable_commit(writes),
        forall|k: int| 0 <= k < writes.len() ==> well_formed(#[trigger] writes[k]),
        commit_bytes(generation, writes).len() <= 256 * 1024 * 1024,
    ensures
        wal_contents(
            kept_as(commits) + frame_bytes(WAL_MAGIC@, commit_bytes(generation, writes)),
        ) matches Err(Error::Corrupt(message)),
{
    let log = kept_as(commits);
    let payload = commit_bytes(generation, writes);
    let tail = frame_bytes(WAL_MAGIC@, payload);
    logs_give_back_their_commits(commits);
    wal::lemma_log_extends(log, tail, 0, Seq::empty(), commits);
    assert((log + tail).skip(log.len() as int) =~= tail);
    assert forall|k: int| 0 <= k < writes.len() implies (#[trigger] writes[k]).valid() by {
        assert(well_formed(writes[k]));
    }
    commit::commit_round_trip(generation, writes);
    wal::lemma_step_of_frame(payload, codec::crc32c(payload), Seq::empty());
    assert(tail + Seq::<u8>::empty() =~= tail);
    assert(wal::wal_step(tail) == (wal::WalStep::Commit {
        generation,
        writes,
        len: payload.len(),
    }));
}

/// The commits that are newer than a generation.
pub open spec fn newer(generation: u64, commits: Commits) -> Commits {
    commits.filter(|commit: (u64, Seq<Op>)| commit.0 > generation)
}

/// The writes of commits, one commit after the other.
pub open spec fn all_writes(commits: Commits) -> Seq<Op> {
    commits.map_values(|commit: (u64, Seq<Op>)| commit.1).flatten()
}

/// Replaying a log counts exactly the commits that are newer than the checkpoint, in
/// their order, and leads to the generation of the last of them.
pub proof fn replay_counts_the_newer_commits(generation: u64, commits: Commits)
    requires
        wal::generations_increase(commits),
    ensures
        wal::replayed(generation, commits).1 == all_writes(newer(generation, commits)),
        wal::replayed(generation, commits).0 == if newer(generation, commits).len() == 0 {
            generation
        } else {
            newer(generation, commits).last().0
        },
    decreases commits.len(),
{
    let fresh = |commit: (u64, Seq<Op>)| commit.0 > generation;
    let own = |commit: (u64, Seq<Op>)| commit.1;
    reveal(Seq::filter);
    if commits.len() == 0 {
        assert(newer(generation, commits) =~= Seq::empty());
        assert(newer(generation, commits).map_values(own) =~= Seq::empty());
        assert(all_writes(newer(generation, commits)) =~= Seq::empty());
    } else {
        let fewer = commits.drop_last();
        let last = commits.last();
        assert(commits[commits.len() - 1] == last);
        assert(wal::generations_increase(fewer)) by {
            assert forall|i: int, j: int| 0 <= i < j < fewer.len() implies (
            #[trigger] fewer[i]).0 < (#[trigger] fewer[j]).0 by {
                assert(fewer[i] == commits[i] && fewer[j] == commits[j]);
            }
            assert forall|i: int| 0 <= i < fewer.len() implies (#[trigger] fewer[i]).0 > 0 by {
                assert(fewer[i] == commits[i]);
            }
        }
        replay_counts_the_newer_commits(generation, fewer);
        let before = newer(generation, fewer);
        lemma_filtered(generation, fewer);
        assert(wal::replayed(generation, fewer).0 < last.0 || last.0 <= generation) by {
            if before.len() > 0 {
                let i = choose|i: int| 0 <= i < fewer.len() && fewer[i] == before.last();
                assert(commits[i] == before.last());
                assert(commits[i].0 < commits[commits.len() - 1].0);
            }
        }
        if last.0 > generation {
            assert(newer(generation, commits) =~= before.push(last));
            let (short, long) = (before.map_values(own), before.push(last).map_values(own));
            assert(long =~= short.push(last.1));
            short.lemma_flatten_push(last.1);
            assert(all_writes(newer(generation, commits)) =~= all_writes(before) + last.1);
        } else {
            assert(newer(generation, commits) =~= before);
            if before.len() > 0 {
                let i = choose|i: int| 0 <= i < fewer.len() && fewer[i] == before.last();
                assert(commits[i] == before.last());
                assert(commits[i].0 < commits[commits.len() - 1].0);
            }
        }
    }
}

proof fn lemma_filtered(generation: u64, commits: Commits)
    ensures
        newer(generation, commits).len() > 0 ==> exists|i: int|
            0 <= i < commits.len() && commits[i] == newer(generation, commits).last() && newer(
                generation,
                commits,
            ).last().0 > generation,
    decreases commits.len(),
{
    reveal(Seq::filter);
    if commits.len() > 0 {
        let fewer = commits.drop_last();
        lemma_filtered(generation, fewer);
        if commits.last().0 > generation {
            assert(commits[commits.len() - 1] == commits.last());
        } else if newer(generation, fewer).len() > 0 {
            let i = choose|i: int|
                0 <= i < fewer.len() && fewer[i] == newer(generation, fewer).last();
            assert(commits[i] == fewer[i]);
        }
    }
}

/// A text behind its length in bytes.
pub open spec fn measured(text: Seq<char>) -> Seq<u8> {
    four_digits(vstd::utf8::encode_utf8(text).len()) + vstd::utf8::encode_utf8(text)
}

/// A write as it stands in a record: a one, the rowid, the number of fields and the
/// fields; or a two and the rowid.
pub open spec fn kept_write(op: Op) -> Seq<u8> {
    match op {
        Op::Upsert { rowid, fields } => seq![1u8] + codec::i64_bytes(rowid) + four_digits(
            fields.len(),
        ) + fields.map_values(|field: Seq<char>| measured(field)).flatten(),
        Op::Delete { rowid } => seq![2u8] + codec::i64_bytes(rowid),
    }
}

/// A record holds the generation, the number of writes, and the writes.
pub proof fn commits_hold_their_writes(generation: u64, writes: Seq<Op>)
    requires
        commit::storable_commit(writes),
        forall|i: int| 0 <= i < writes.len() ==> well_formed(#[trigger] writes[i]),
    ensures
        commit_bytes(generation, writes) == codec::u64_bytes(generation) + four_digits(
            writes.len(),
        ) + writes.map_values(|op: Op| kept_write(op)).flatten(),
{
    lemma_four(writes.len());
    assert forall|i: int| 0 <= i < writes.len() implies commit::op_encoder()(
        #[trigger] writes[i],
    ) == kept_write(writes[i]) by {
        assert(commit::storable_op(writes[i]) && well_formed(writes[i]));
        match writes[i] {
            Op::Upsert { rowid, fields } => {
                lemma_four(fields.len());
                let bytes = crate::parsing::text_encoder();
                assert forall|f: int| 0 <= f < fields.len() implies bytes(#[trigger] fields[f])
                    == measured(fields[f]) by {
                    assert(crate::parsing::storable(fields[f]));
                    lemma_four(vstd::utf8::encode_utf8(fields[f]).len());
                }
                lemma_list_is_flat(fields, bytes, |field: Seq<char>| measured(field));
            },
            Op::Delete { rowid } => {},
        }
    }
    lemma_list_is_flat(writes, commit::op_encoder(), |op: Op| kept_write(op));
}

proof fn lemma_list_is_flat<T>(
    items: Seq<T>,
    bytes: spec_fn(T) -> Seq<u8>,
    other: spec_fn(T) -> Seq<u8>,
)
    requires
        forall|i: int| 0 <= i < items.len() ==> bytes(#[trigger] items[i]) == other(items[i]),
    ensures
        crate::parsing::list_bytes(items, bytes) == items.map_values(other).flatten(),
    decreases items.len(),
{
    let all = items.map_values(other);
    if items.len() == 0 {
        assert(all =~= Seq::empty());
        assert(all.flatten() =~= Seq::empty());
    } else {
        let rest = items.skip(1);
        assert forall|i: int| 0 <= i < rest.len() implies bytes(#[trigger] rest[i]) == other(
            rest[i],
        ) by {
            assert(rest[i] == items[i + 1]);
        }
        lemma_list_is_flat(rest, bytes, other);
        assert(all.drop_first() =~= rest.map_values(other));
        assert(bytes(items[0]) == other(items[0]));
        assert(all.flatten() =~= all[0] + all.drop_first().flatten());
    }
}

/// What `encode_commit` wrote, `decode_commit` reads: the generation and the writes.
pub proof fn commits_are_read_back(
    generation: u64,
    operations: &Vec<Operation>,
    writes: Seq<Op>,
    encoded: Result<Vec<u8>>,
    payload: &[u8],
    decoded: Result<(u64, Vec<Operation>)>,
)
    requires
        handed_in(operations@, writes),
        forall|i: int| 0 <= i < writes.len() ==> well_formed(#[trigger] writes[i]),
        call_ensures(encode_commit, (generation, operations), encoded),
        encoded is Ok,
        payload@ == encoded->Ok_0@,
        call_ensures(decode_commit, (payload,), decoded),
    ensures
        decoded matches Ok((found, read)) && found == generation && handed_in(read@, writes),
{
    writing::lemma_handed_in(operations@, writes);
    assert forall|k: int| 0 <= k < writes.len() implies (#[trigger] writes[k]).valid() by {
        assert(well_formed(writes[k]));
    }
    commit::commit_round_trip(generation, writes);
    writing::lemma_ops_handed_in(decoded->Ok_0.1@);
}

/// A commit can be written where it has fewer than 2^32 writes and no field of 2^32
/// bytes or more.
pub proof fn commits_can_be_written(
    generation: u64,
    operations: &Vec<Operation>,
    writes: Seq<Op>,
    encoded: Result<Vec<u8>>,
)
    requires
        handed_in(operations@, writes),
        call_ensures(encode_commit, (generation, operations), encoded),
        writes.len() < 0x1_0000_0000,
        forall|i: int, f: int|
            0 <= i < writes.len() && (writes[i] matches Op::Upsert { rowid, fields } && 0 <= f
                < fields.len()) ==> vstd::utf8::encode_utf8(
                (#[trigger] writes[i]->fields[f]),
            ).len() < 0x1_0000_0000,
    ensures
        encoded is Ok,
{
    writing::lemma_handed_in(operations@, writes);
    assert forall|i: int| 0 <= i < writes.len() implies commit::storable_op(
        #[trigger] writes[i],
    ) by {
        match writes[i] {
            Op::Upsert { rowid, fields } => {
                assert forall|f: int| 0 <= f < fields.len() implies crate::parsing::storable(
                    #[trigger] fields[f],
                ) by {
                    assert(vstd::utf8::encode_utf8(writes[i]->fields[f]).len() < 0x1_0000_0000);
                }
            },
            Op::Delete { rowid } => {},
        }
    }
}

/// Two snapshots hold the same documents at the same generation.
pub open spec fn alike(left: Snapshot, right: Snapshot) -> bool {
    &&& left.generation == right.generation
    &&& forall|rowid: i64| #[trigger] left.content(rowid) == right.content(rowid)
}

/// What `encode_snapshot` wrote of a snapshot without replaced or deleted documents,
/// `decode_snapshot` reads: the same documents at the same generation.
pub proof fn checkpoints_are_read_back(
    saved: &Snapshot,
    encoded: Result<Vec<u8>>,
    payload: &[u8],
    decoded: Result<Snapshot>,
)
    requires
        saved.wf(),
        saved.all_live(),
        call_ensures(encode_snapshot, (saved,), encoded),
        encoded is Ok,
        payload@ == encoded->Ok_0@,
        payload@.len() <= u32::MAX,
        call_ensures(decode_snapshot, (payload,), decoded),
    ensures
        decoded matches Ok(read) && read.wf() && alike(read, *saved) && (saved.faithful()
            ==> read.faithful()),
{
    restoring::restored_snapshot_is_the_same(*saved, decoded->Ok_0);
}

/// A checkpoint file of such a snapshot opens to the same documents at the same
/// generation.
pub proof fn checkpoint_files_are_read_back(
    saved: &Snapshot,
    encoded: Result<Vec<u8>>,
    bytes: &[u8],
    read: Result<Snapshot>,
)
    requires
        saved.wf(),
        saved.all_live(),
        call_ensures(encode_snapshot, (saved,), encoded),
        encoded is Ok,
        encoded->Ok_0@.len() <= u32::MAX,
        bytes@ == frame_bytes(SEGMENT_MAGIC@, encoded->Ok_0@),
        call_ensures(read_checkpoint, (bytes,), read),
    ensures
        read matches Ok(current) && current.wf() && alike(current, *saved) && (saved.faithful()
            ==> current.faithful()),
{
    restoring::written_checkpoint_is_read(*saved);
    restoring::restored_snapshot_is_the_same(*saved, read->Ok_0);
}

/// A checkpoint file of the older kind opens to what its writes leave.
pub proof fn older_checkpoint_files_are_read_back(
    generation: u64,
    writes: Seq<Op>,
    bytes: &[u8],
    read: Result<Snapshot>,
)
    requires
        commit::storable_commit(writes),
        forall|i: int| 0 <= i < writes.len() ==> well_formed(#[trigger] writes[i]),
        commit_bytes(generation, writes).len() <= u32::MAX,
        bytes@ == frame_bytes(LEGACY_SEGMENT_MAGIC@, commit_bytes(generation, writes)),
        call_ensures(read_checkpoint, (bytes,), read),
    ensures
        read matches Ok(current) && current.wf() && current.faithful() && current.generation
            == generation && (forall|at: int, rowid: i64| #[trigger]
            writing::decides(writes, at, rowid) ==> current.content(rowid) == leaves(writes[at]))
            && (forall|rowid: i64| #[trigger]
            spares(writes, rowid) ==> current.content(rowid) is None),
{
    let payload = commit_bytes(generation, writes);
    assert forall|k: int| 0 <= k < writes.len() implies (#[trigger] writes[k]).valid() by {
        assert(well_formed(writes[k]));
    }
    commit::commit_round_trip(generation, writes);
    let size = codec::u32_bytes(payload.len() as u32);
    let sum = codec::u32_bytes(codec::crc32c(payload));
    vstd::arithmetic::power2::lemma2_to64();
    codec::le_round_trip(payload.len(), 4);
    codec::le_round_trip(codec::crc32c(payload) as nat, 4);
    files_are_known_by_their_first_bytes();
    assert(LEGACY_SEGMENT_MAGIC@[7] != SEGMENT_MAGIC@[7]);
    assert(bytes@.take(8) =~= LEGACY_SEGMENT_MAGIC@);
    assert(bytes@.take(8)[7] != SEGMENT_MAGIC@[7]);
    assert(bytes@.subrange(8, 12) =~= size);
    assert(bytes@.subrange(12, 16) =~= sum);
    assert(bytes@.skip(16) =~= payload);
    let current = read->Ok_0;
    assert forall|at: int, rowid: i64| #[trigger]
        writing::decides(writes, at, rowid) implies current.content(rowid) == leaves(
        writes[at],
    ) by {
        writing::the_last_write_decides(None, writes, rowid);
        assert(current.content(rowid) == operation::content_after(None, writes, rowid));
    }
    assert forall|rowid: i64| #[trigger] spares(writes, rowid) implies current.content(
        rowid,
    ) is None by {
        writing::the_last_write_decides(None, writes, rowid);
        assert(current.content(rowid) == operation::content_after(None, writes, rowid));
    }
}

/// Of two checkpoints the newer one is kept, and of a readable and an unreadable one the
/// readable.
pub proof fn the_newest_readable_checkpoint_is_kept(
    best: Option<Snapshot>,
    bytes: &[u8],
    read: Result<Snapshot>,
    kept: Option<Snapshot>,
)
    requires
        call_ensures(read_checkpoint, (bytes,), read),
        call_ensures(keep_newer, (best, bytes), kept),
    ensures
        read is Err ==> kept == best,
        read matches Ok(candidate) ==> match best {
            Some(earlier) => if candidate.generation > earlier.generation {
                kept is Some && kept->0.generation == candidate.generation
            } else {
                kept == best
            },
            None => kept is Some && kept->0.generation == candidate.generation,
        },
{
}

/// A database opened from a checkpoint and a log shows what the commits newer than the
/// checkpoint leave of the documents of the checkpoint.
pub proof fn recovered_databases_show_their_commits(
    checkpoint: Snapshot,
    log: &[u8],
    commits: Commits,
    result: Result<Option<(Snapshot, usize)>>,
)
    requires
        checkpoint.wf(),
        well_kept(commits),
        log@ == kept_as(commits),
        call_ensures(recover, (Some(checkpoint), log), result),
        result is Ok && result->Ok_0 is Some,
    ensures
        ({
            let (current, len) = result->Ok_0->0;
            let recent = newer(checkpoint.generation, commits);
            &&& len == log@.len()
            &&& current.wf()
            &&& current.generation == if recent.len() == 0 {
                checkpoint.generation
            } else {
                recent.last().0
            }
            &&& writing::shows_writes(checkpoint, all_writes(recent), current)
            &&& checkpoint.faithful() ==> current.faithful()
            &&& checkpoint.ordered() ==> current.ordered()
        }),
{
    let (current, len) = result->Ok_0->0;
    logs_give_back_their_commits(commits);
    wal::read_commits_are_sound(log@);
    replay_counts_the_newer_commits(checkpoint.generation, commits);
    let writes = all_writes(newer(checkpoint.generation, commits));
    assert forall|rowid: i64| #[trigger] current.content(rowid) == operation::content_after(
        checkpoint.content(rowid),
        writes,
        rowid,
    ) by {
        assert(wal::base_content(Some(checkpoint), rowid) == checkpoint.content(rowid));
    }
    writing::lemma_shows(checkpoint, writes, current);
}

/// A database without a checkpoint shows what all commits of its log leave.
pub proof fn fresh_databases_show_their_commits(
    log: &[u8],
    commits: Commits,
    result: Result<Option<(Snapshot, usize)>>,
)
    requires
        well_kept(commits),
        log@ == kept_as(commits),
        call_ensures(recover, (None, log), result),
        result is Ok && result->Ok_0 is Some,
    ensures
        ({
            let (current, len) = result->Ok_0->0;
            &&& len == log@.len()
            &&& current.wf()
            &&& current.faithful()
            &&& current.ordered()
            &&& current.generation == if commits.len() == 0 {
                0
            } else {
                commits.last().0
            }
            &&& forall|at: int, rowid: i64| #[trigger]
                writing::decides(all_writes(commits), at, rowid) ==> current.content(rowid)
                    == leaves(all_writes(commits)[at])
            &&& forall|rowid: i64| #[trigger]
                spares(all_writes(commits), rowid) ==> current.content(rowid) is None
        }),
{
    let (current, len) = result->Ok_0->0;
    logs_give_back_their_commits(commits);
    wal::read_commits_are_sound(log@);
    replay_counts_the_newer_commits(0, commits);
    lemma_all_newer(commits);
    let writes = all_writes(commits);
    assert forall|at: int, rowid: i64| #[trigger]
        writing::decides(writes, at, rowid) implies current.content(rowid) == leaves(
        writes[at],
    ) by {
        writing::the_last_write_decides(None, writes, rowid);
        assert(wal::base_content(None, rowid) is None);
        assert(current.content(rowid) == operation::content_after(None, writes, rowid));
    }
    assert forall|rowid: i64| #[trigger] spares(writes, rowid) implies current.content(
        rowid,
    ) is None by {
        writing::the_last_write_decides(None, writes, rowid);
        assert(wal::base_content(None, rowid) is None);
        assert(current.content(rowid) == operation::content_after(None, writes, rowid));
    }
}

proof fn lemma_all_newer(commits: Commits)
    requires
        forall|i: int| 0 <= i < commits.len() ==> (#[trigger] commits[i]).0 > 0,
    ensures
        newer(0, commits) == commits,
    decreases commits.len(),
{
    reveal(Seq::filter);
    if commits.len() > 0 {
        let fewer = commits.drop_last();
        assert forall|i: int| 0 <= i < fewer.len() implies (#[trigger] fewer[i]).0 > 0 by {
            assert(fewer[i] == commits[i]);
        }
        lemma_all_newer(fewer);
        assert(commits[commits.len() - 1] == commits.last());
        assert(newer(0, commits) =~= commits);
    } else {
        assert(newer(0, commits) =~= commits);
    }
}

} // verus!
