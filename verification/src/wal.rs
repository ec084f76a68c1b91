//! The write-ahead log: one checksummed record per commit.
use crate::codec;
use crate::codec::{append_bytes, checksum, put_u32, read_u32};
use crate::commit;
use crate::commit::decode_commit;
use crate::error::{invalid_input, Error, Result};
use crate::operation;
use crate::operation::{try_apply_operations, Op, Operation};
use crate::snapshot::Snapshot;
use vstd::prelude::*;

verus! {

broadcast use crate::codec::le_bytes_len;

/// `KSTWAL01`
pub const WAL_MAGIC: [u8; 8] = [0x4b, 0x53, 0x54, 0x57, 0x41, 0x4c, 0x30, 0x31];

/// No record of the log is longer.
pub const MAX_WAL_RECORD_BYTES: usize = 268_435_456;

/// A payload behind a magic, its length and its checksum.
pub open spec fn frame_bytes(magic: Seq<u8>, payload: Seq<u8>) -> Seq<u8> {
    magic + codec::u32_bytes(payload.len() as u32) + codec::u32_bytes(codec::crc32c(payload))
        + payload
}

/// What a log begins with.
pub enum WalStep {
    /// A sound record; `len` counts the bytes behind its header.
    Commit { generation: u64, writes: Seq<Op>, len: nat },
    /// Nothing, or a record whose writing was interrupted.
    End,
    /// Something else.
    Bad(Error),
}

/// A log, as contracts see it: the commits in their order.
pub type Commits = Seq<(u64, Seq<Op>)>;

pub open spec fn wal_step(rest: Seq<u8>) -> WalStep {
    if rest.len() < 16 {
        WalStep::End
    } else if rest.take(8) != WAL_MAGIC@ {
        WalStep::Bad(Error::Corrupt("invalid WAL magic"))
    } else {
        let len = codec::le_value(rest.subrange(8, 12));
        let expected = codec::le_value(rest.subrange(12, 16));
        if len > MAX_WAL_RECORD_BYTES {
            WalStep::Bad(Error::Corrupt("WAL record exceeds safety limit"))
        } else if 16 + len > rest.len() {
            WalStep::End
        } else {
            let payload = rest.subrange(16, 16 + len as int);
            if codec::crc32c(payload) != expected {
                if 16 + len == rest.len() {
                    WalStep::End
                } else {
                    WalStep::Bad(Error::Corrupt("WAL checksum mismatch"))
                }
            } else {
                match commit::parse_commit(payload) {
                    Ok((generation, writes)) => WalStep::Commit { generation, writes, len },
                    Err(error) => WalStep::Bad(error),
                }
            }
        }
    }
}

/// The generation of the last commit, zero before the first.
pub open spec fn last_generation(commits: Commits) -> u64 {
    if commits.len() == 0 {
        0
    } else {
        commits.last().0
    }
}

/// What the log holds from `offset` on, where `commits` stand before it: all its
/// commits and how far they reach.
pub open spec fn parse_wal(bytes: Seq<u8>, offset: nat, commits: Commits) -> Result<(Commits, nat)>
    decreases bytes.len() - offset,
{
    match wal_step(bytes.skip(offset as int)) {
        WalStep::Commit { generation, writes, len } => if offset + 16 + len > bytes.len() {
            Ok((commits, offset))
        } else if generation <= last_generation(commits) {
            Err(Error::Corrupt("WAL generations are not increasing"))
        } else {
            parse_wal(bytes, offset + 16 + len, commits.push((generation, writes)))
        },
        WalStep::End => Ok((commits, offset)),
        WalStep::Bad(error) => Err(error),
    }
}

/// What a log holds: its commits, and the length of the part that holds them.
pub open spec fn wal_contents(bytes: Seq<u8>) -> Result<(Commits, nat)> {
    parse_wal(bytes, 0, Seq::empty())
}

/// The generations increase from commit to commit, beginning above zero.
pub open spec fn generations_increase(commits: Commits) -> bool {
    &&& forall|i: int, j: int|
        0 <= i < j < commits.len() ==> (#[trigger] commits[i]).0 < (#[trigger] commits[j]).0
    &&& forall|i: int| 0 <= i < commits.len() ==> (#[trigger] commits[i]).0 > 0
}

/// Every write of every commit is valid.
pub open spec fn valid_commits(commits: Commits) -> bool {
    forall|i: int, k: int|
        0 <= i < commits.len() && 0 <= k < commits[i].1.len() ==> (
        #[trigger] commits[i].1[k]).valid()
}

proof fn lemma_step_extends(rest: Seq<u8>, tail: Seq<u8>)
    requires
        wal_step(rest) is Commit,
    ensures
        wal_step(rest + tail) == wal_step(rest),
        16 + wal_step(rest)->len <= rest.len(),
{
    let all = rest + tail;
    assert(all.take(8) =~= rest.take(8));
    assert(all.subrange(8, 12) =~= rest.subrange(8, 12));
    assert(all.subrange(12, 16) =~= rest.subrange(12, 16));
    let len = codec::le_value(rest.subrange(8, 12));
    assert(all.subrange(16, 16 + len as int) =~= rest.subrange(16, 16 + len as int));
}

proof fn lemma_step_fits(rest: Seq<u8>)
    ensures
        wal_step(rest) matches WalStep::Commit { generation, writes, len } ==> 16 + len
            <= rest.len(),
{
}

/// What stands behind a sound log is read after it.
pub(crate) proof fn lemma_log_extends(
    log: Seq<u8>,
    tail: Seq<u8>,
    offset: nat,
    commits: Commits,
    found: Commits,
)
    requires
        offset <= log.len(),
        parse_wal(log, offset, commits) == Ok::<(Commits, nat), Error>((found, log.len())),
    ensures
        parse_wal(log + tail, offset, commits) == parse_wal(log + tail, log.len(), found),
    decreases log.len() - offset,
{
    let rest = log.skip(offset as int);
    if offset < log.len() {
        match wal_step(rest) {
            WalStep::Commit { generation, writes, len } => {
                lemma_step_extends(rest, tail);
                assert((log + tail).skip(offset as int) =~= rest + tail);
                lemma_log_extends(
                    log,
                    tail,
                    offset + 16 + len,
                    commits.push((generation, writes)),
                    found,
                );
            },
            WalStep::End => {},
            WalStep::Bad(error) => {},
        }
    } else {
        assert(rest.len() == 0);
    }
}

/// The record of a commit, wherever it stands.
pub(crate) proof fn lemma_step_of_frame(payload: Seq<u8>, expected: u32, tail: Seq<u8>)
    requires
        payload.len() <= MAX_WAL_RECORD_BYTES,
    ensures
        ({
            let rest = WAL_MAGIC@ + codec::u32_bytes(payload.len() as u32) + codec::u32_bytes(
                expected,
            ) + payload + tail;
            &&& rest.len() == 16 + payload.len() + tail.len()
            &&& rest.take(8) == WAL_MAGIC@
            &&& codec::le_value(rest.subrange(8, 12)) == payload.len()
            &&& codec::le_value(rest.subrange(12, 16)) == expected
            &&& rest.subrange(16, 16 + payload.len() as int) == payload
        }),
{
    let size = codec::u32_bytes(payload.len() as u32);
    let sum = codec::u32_bytes(expected);
    let rest = WAL_MAGIC@ + size + sum + payload + tail;
    assert(WAL_MAGIC@.len() == 8);
    vstd::arithmetic::power2::lemma2_to64();
    codec::le_round_trip(payload.len(), 4);
    codec::le_round_trip(expected as nat, 4);
    assert(rest.take(8) =~= WAL_MAGIC@);
    assert(rest.subrange(8, 12) =~= size);
    assert(rest.subrange(12, 16) =~= sum);
    assert(rest.subrange(16, 16 + payload.len() as int) =~= payload);
}

/// A commit appended to a sound log is read back from it.
pub proof fn appended_commit_is_read(
    log: Seq<u8>,
    commits: Commits,
    generation: u64,
    writes: Seq<Op>,
)
    requires
        wal_contents(log) == Ok::<(Commits, nat), Error>((commits, log.len())),
        generation > last_generation(commits),
        commit::storable_commit(writes),
        forall|i: int| 0 <= i < writes.len() ==> (#[trigger] writes[i]).valid(),
        commit::commit_bytes(generation, writes).len() <= MAX_WAL_RECORD_BYTES,
    ensures
        ({
            let longer = log + frame_bytes(WAL_MAGIC@, commit::commit_bytes(generation, writes));
            wal_contents(longer) == Ok::<(Commits, nat), Error>(
                (commits.push((generation, writes)), longer.len()),
            )
        }),
{
    let payload = commit::commit_bytes(generation, writes);
    let frame = frame_bytes(WAL_MAGIC@, payload);
    let longer = log + frame;
    lemma_log_extends(log, frame, 0, Seq::empty(), commits);
    commit::commit_round_trip(generation, writes);
    lemma_step_of_frame(payload, codec::crc32c(payload), Seq::empty());
    assert(frame + Seq::<u8>::empty() =~= frame);
    assert(longer.skip(log.len() as int) =~= frame);
    assert(longer.skip(longer.len() as int).len() == 0);
    assert(wal_step(frame) == (WalStep::Commit { generation, writes, len: payload.len() }));
    let pushed = commits.push((generation, writes));
    assert(log.len() + 16 + payload.len() == longer.len());
    assert(parse_wal(longer, longer.len(), pushed) == Ok::<(Commits, nat), Error>(
        (pushed, longer.len()),
    ));
}

/// A record cut off anywhere is dropped, and the commits before it stand.
pub proof fn torn_record_is_dropped(log: Seq<u8>, commits: Commits, payload: Seq<u8>, kept: nat)
    requires
        wal_contents(log) == Ok::<(Commits, nat), Error>((commits, log.len())),
        payload.len() <= MAX_WAL_RECORD_BYTES,
        kept < frame_bytes(WAL_MAGIC@, payload).len(),
    ensures
        wal_contents(log + frame_bytes(WAL_MAGIC@, payload).take(kept as int)) == Ok::<
            (Commits, nat),
            Error,
        >((commits, log.len())),
{
    let frame = frame_bytes(WAL_MAGIC@, payload);
    let torn = frame.take(kept as int);
    lemma_log_extends(log, torn, 0, Seq::empty(), commits);
    lemma_step_of_frame(payload, codec::crc32c(payload), Seq::empty());
    assert(frame + Seq::<u8>::empty() =~= frame);
    assert((log + torn).skip(log.len() as int) =~= torn);
    if kept >= 16 {
        assert(torn.take(8) =~= frame.take(8));
        assert(torn.subrange(8, 12) =~= frame.subrange(8, 12));
    }
}

/// A record with a wrong checksum is dropped at the end of the log, and makes the
/// log corrupt anywhere else.
pub proof fn damaged_record(
    log: Seq<u8>,
    commits: Commits,
    payload: Seq<u8>,
    expected: u32,
    tail: Seq<u8>,
)
    requires
        wal_contents(log) == Ok::<(Commits, nat), Error>((commits, log.len())),
        payload.len() <= MAX_WAL_RECORD_BYTES,
        expected != codec::crc32c(payload),
    ensures
        ({
            let longer = log + (WAL_MAGIC@ + codec::u32_bytes(payload.len() as u32)
                + codec::u32_bytes(expected) + payload + tail);
            wal_contents(longer) == if tail.len() == 0 {
                Ok::<(Commits, nat), Error>((commits, log.len()))
            } else {
                Err(Error::Corrupt("WAL checksum mismatch"))
            }
        }),
{
    let rest = WAL_MAGIC@ + codec::u32_bytes(payload.len() as u32) + codec::u32_bytes(expected)
        + payload + tail;
    lemma_log_extends(log, rest, 0, Seq::empty(), commits);
    lemma_step_of_frame(payload, expected, tail);
    assert((log + rest).skip(log.len() as int) =~= rest);
}

proof fn lemma_push_sound(bytes: Seq<u8>, offset: nat, commits: Commits)
    requires
        offset <= bytes.len(),
        generations_increase(commits),
        valid_commits(commits),
        wal_step(bytes.skip(offset as int)) is Commit,
        wal_step(bytes.skip(offset as int))->generation > last_generation(commits),
    ensures
        ({
            let step = wal_step(bytes.skip(offset as int));
            let longer = commits.push((step->generation, step->writes));
            generations_increase(longer) && valid_commits(longer)
        }),
{
    let step = wal_step(bytes.skip(offset as int));
    let longer = commits.push((step->generation, step->writes));
    let payload = bytes.skip(offset as int).subrange(16, 16 + step->len as int);
    commit::parsed_writes_are_valid(payload);
    assert forall|i: int, k: int| 0 <= i < longer.len() && 0 <= k < longer[i].1.len() implies (
    #[trigger] longer[i].1[k]).valid() by {
        if i < commits.len() {
            assert(commits[i].1[k].valid());
        }
    }
    assert forall|i: int, j: int| 0 <= i < j < longer.len() implies (#[trigger] longer[i]).0 < (
    #[trigger] longer[j]).0 by {
        if j == commits.len() {
            assert(commits[commits.len() - 1] == commits.last());
        }
    }
}

proof fn lemma_reach(bytes: Seq<u8>, offset: nat, commits: Commits)
    requires
        offset <= bytes.len(),
        generations_increase(commits),
        valid_commits(commits),
    ensures
        parse_wal(bytes, offset, commits) matches Ok((found, valid)) ==> {
            &&& offset <= valid <= bytes.len()
            &&& generations_increase(found)
            &&& valid_commits(found)
        },
    decreases bytes.len() - offset,
{
    match wal_step(bytes.skip(offset as int)) {
        WalStep::Commit { generation, writes, len } => {
            if offset + 16 + len <= bytes.len() && generation > last_generation(commits) {
                lemma_push_sound(bytes, offset, commits);
                let longer = commits.push((generation, writes));
                lemma_reach(bytes, offset + 16 + len, longer);
            }
        },
        WalStep::End => {},
        WalStep::Bad(error) => {},
    }
}

/// A log that can be read has increasing generations and valid writes.
pub proof fn read_commits_are_sound(bytes: Seq<u8>)
    ensures
        wal_contents(bytes) matches Ok((commits, valid)) ==> {
            &&& valid <= bytes.len()
            &&& generations_increase(commits)
            &&& valid_commits(commits)
        },
{
    lemma_reach(bytes, 0, Seq::empty());
}

proof fn lemma_cut(bytes: Seq<u8>, offset: nat, commits: Commits, found: Commits, valid: nat)
    requires
        offset <= bytes.len(),
        generations_increase(commits),
        valid_commits(commits),
        parse_wal(bytes, offset, commits) == Ok::<(Commits, nat), Error>((found, valid)),
    ensures
        parse_wal(bytes.take(valid as int), offset, commits) == Ok::<(Commits, nat), Error>(
            (found, valid),
        ),
    decreases bytes.len() - offset,
{
    lemma_reach(bytes, offset, commits);
    let cut = bytes.take(valid as int);
    let rest = bytes.skip(offset as int);
    match wal_step(rest) {
        WalStep::Commit { generation, writes, len } => {
            lemma_step_fits(rest);
            let longer = commits.push((generation, writes));
            lemma_push_sound(bytes, offset, commits);
            lemma_reach(bytes, offset + 16 + len, longer);
            let kept = cut.skip(offset as int);
            assert(kept.take(8) =~= rest.take(8));
            assert(kept.subrange(8, 12) =~= rest.subrange(8, 12));
            assert(kept.subrange(12, 16) =~= rest.subrange(12, 16));
            assert(kept.subrange(16, 16 + len as int) =~= rest.subrange(16, 16 + len as int));
            assert(wal_step(kept) == wal_step(rest));
            lemma_cut(bytes, offset + 16 + len, longer, found, valid);
        },
        WalStep::End => {
            assert(cut.skip(offset as int).len() == 0);
        },
        WalStep::Bad(error) => {},
    }
}

/// Cut to the part that holds its commits, a log holds the same commits and
/// nothing behind them.
pub proof fn truncated_log_is_sound(bytes: Seq<u8>)
    ensures
        wal_contents(bytes) matches Ok((commits, valid)) ==> wal_contents(bytes.take(valid as int))
            == Ok::<(Commits, nat), Error>((commits, valid)),
{
    match wal_contents(bytes) {
        Ok((commits, valid)) => {
            lemma_cut(bytes, 0, Seq::empty(), commits, valid);
        },
        Err(error) => {},
    }
}

/// The bytes of a record.
pub fn encode_frame(magic: &[u8; 8], payload: &[u8]) -> (result: Result<Vec<u8>>)
    ensures
        payload@.len() <= u32::MAX ==> (result matches Ok(frame) && frame@ == frame_bytes(
            magic@,
            payload@,
        )),
        payload@.len() > u32::MAX ==> (result matches Err(error) && error.is_invalid_input(
            "transaction exceeds 4 GiB"@,
        )),
{
    if payload.len() > u32::MAX as usize {
        return Err(invalid_input("transaction exceeds 4 GiB"));
    }
    let mut frame: Vec<u8> = Vec::new();
    append_bytes(&mut frame, magic.as_slice());
    put_u32(&mut frame, payload.len() as u32);
    put_u32(&mut frame, checksum(payload));
    append_bytes(&mut frame, payload);
    assert(frame@ =~= frame_bytes(magic@, payload@));
    Ok(frame)
}

/// Whether `bytes` begin with `magic`.
pub fn has_magic(bytes: &[u8], magic: &[u8; 8]) -> (result: bool)
    requires
        bytes@.len() >= 8,
    ensures
        result == (bytes@.take(8) == magic@),
{
    let mut index: usize = 0;
    while index < 8
        invariant
            index <= 8,
            bytes@.len() >= 8,
            magic@.len() == 8,
            forall|i: int| 0 <= i < index ==> bytes@[i] == magic@[i],
        decreases 8 - index,
    {
        if bytes[index] != magic[index] {
            assert(bytes@.take(8)[index as int] != magic@[index as int]);
            return false;
        }
        index = index + 1;
    }
    assert(bytes@.take(8) =~= magic@);
    true
}

/// The length and the checksum that stand behind a magic.
pub fn frame_header(bytes: &[u8]) -> (header: (u32, u32))
    requires
        bytes@.len() >= 16,
    ensures
        header.0 == codec::le_value(bytes@.subrange(8, 12)),
        header.1 == codec::le_value(bytes@.subrange(12, 16)),
{
    let (magic, tail) = bytes.split_at(8);
    let mut input: &[u8] = tail;
    let len = read_u32(&mut input);
    let expected = read_u32(&mut input);
    proof {
        assert(tail@.take(4) =~= bytes@.subrange(8, 12));
        assert(tail@.skip(4).take(4) =~= bytes@.subrange(12, 16));
        codec::le_bytes_of_value(bytes@.subrange(8, 12));
        codec::le_bytes_of_value(bytes@.subrange(12, 16));
        vstd::arithmetic::power2::lemma2_to64();
    }
    match (len, expected) {
        (Ok(len), Ok(expected)) => (len, expected),
        _ => (0, 0),
    }
}

/// The commits as contracts see them.
pub open spec fn shown(commits: Seq<(u64, Vec<Operation>)>) -> Commits {
    commits.map_values(|commit: (u64, Vec<Operation>)| (commit.0, operation::ops(commit.1@)))
}

/// Reads a log: its commits, and the length of the part that holds them.
pub fn read_wal(bytes: &[u8]) -> (result: Result<(Vec<(u64, Vec<Operation>)>, usize)>)
    ensures
        match wal_contents(bytes@) {
            Ok((commits, valid)) => result matches Ok(contents) && shown(contents.0@) == commits
                && contents.1 == valid && valid <= bytes@.len() && generations_increase(commits)
                && valid_commits(commits),
            Err(error) => result == Err::<(Vec<(u64, Vec<Operation>)>, usize), Error>(error),
        },
{
    proof {
        read_commits_are_sound(bytes@);
    }
    let mut commits: Vec<(u64, Vec<Operation>)> = Vec::new();
    let mut previous: u64 = 0;
    let mut valid: usize = 0;
    assert(shown(commits@) =~= Seq::empty());
    while bytes.len() - valid >= 16
        invariant
            valid <= bytes@.len(),
            wal_contents(bytes@) == parse_wal(bytes@, valid as nat, shown(commits@)),
            previous == last_generation(shown(commits@)),
            match wal_contents(bytes@) {
                Ok((commits, valid)) => valid <= bytes@.len() && generations_increase(commits)
                    && valid_commits(commits),
                Err(error) => true,
            },
        decreases bytes@.len() - valid,
    {
        let (before, rest) = bytes.split_at(valid);
        assert(rest@ =~= bytes@.skip(valid as int));
        if !has_magic(rest, &WAL_MAGIC) {
            return Err(Error::Corrupt("invalid WAL magic"));
        }
        let (len, expected) = frame_header(rest);
        if len as usize > MAX_WAL_RECORD_BYTES {
            return Err(Error::Corrupt("WAL record exceeds safety limit"));
        }
        let (header, body) = rest.split_at(16);
        if len as usize > body.len() {
            return Ok((commits, valid));
        }
        let (payload, tail) = body.split_at(len as usize);
        assert(payload@ =~= rest@.subrange(16, 16 + len as int));
        if checksum(payload) != expected {
            if tail.len() == 0 {
                return Ok((commits, valid));
            }
            return Err(Error::Corrupt("WAL checksum mismatch"));
        }
        let (generation, operations) = match decode_commit(payload) {
            Ok(commit) => commit,
            Err(error) => return Err(error),
        };
        if generation <= previous {
            return Err(Error::Corrupt("WAL generations are not increasing"));
        }
        let ghost earlier = commits@;
        previous = generation;
        commits.push((generation, operations));
        proof {
            assert(shown(commits@) =~= shown(earlier).push(
                (generation, operation::ops(operations@)),
            ));
        }
        valid = valid + 16 + len as usize;
    }
    Ok((commits, valid))
}

/// The writes of all commits newer than `generation`, in their order, and the
/// generation they lead to.
pub open spec fn replayed(generation: u64, commits: Commits) -> (u64, Seq<Op>)
    decreases commits.len(),
{
    if commits.len() == 0 {
        (generation, Seq::empty())
    } else {
        let (reached, writes) = replayed(generation, commits.drop_last());
        let last = commits.last();
        if last.0 > reached {
            (last.0, writes + last.1)
        } else {
            (reached, writes)
        }
    }
}

/// How many documents the commits write.
pub open spec fn document_count(commits: Commits) -> nat
    decreases commits.len(),
{
    if commits.len() == 0 {
        0
    } else {
        document_count(commits.drop_last()) + operation::document_count(commits.last().1)
    }
}

/// The generation that a database starts from.
pub open spec fn base_generation(checkpoint: Option<Snapshot>) -> u64 {
    match checkpoint {
        Some(base) => base.generation,
        None => 0,
    }
}

/// The contents that a database starts from.
pub open spec fn base_content(checkpoint: Option<Snapshot>, rowid: i64) -> Option<Seq<Seq<char>>> {
    match checkpoint {
        Some(base) => base.content(rowid),
        None => None,
    }
}

/// Whether what a database starts from has room for more documents.
pub open spec fn base_room(checkpoint: Option<Snapshot>, docs: nat) -> bool {
    match checkpoint {
        Some(base) => base.room(docs),
        None => docs <= u32::MAX,
    }
}

/// The commits up to the one at `index` lead to this state, which has no room for
/// the documents that it writes.
pub open spec fn lacks_room(
    checkpoint: Option<Snapshot>,
    commits: Commits,
    index: int,
    state: Snapshot,
) -> bool {
    let (generation, writes) = replayed(base_generation(checkpoint), commits.take(index));
    &&& 0 <= index < commits.len()
    &&& state.wf()
    &&& (checkpoint matches Some(base) ==> base.faithful()) ==> state.faithful()
    &&& state.generation == generation
    &&& forall|rowid: i64| #[trigger]
        state.content(rowid) == operation::content_after(
            base_content(checkpoint, rowid),
            writes,
            rowid,
        )
    &&& commits[index].0 > generation
    &&& !state.room(operation::document_count(commits[index].1))
}

/// One of the commits meets a state that has no room for it.
pub open spec fn overflows(checkpoint: Option<Snapshot>, commits: Commits) -> bool {
    exists|index: int, state: Snapshot| lacks_room(checkpoint, commits, index, state)
}

/// Applies the commits that are newer than the snapshot, in their order. There is
/// no result where the documents would become too many to count.
pub fn replay(base: Snapshot, commits: Vec<(u64, Vec<Operation>)>) -> (result: Option<Snapshot>)
    requires
        base.wf(),
    ensures
        result is None ==> overflows(Some(base), shown(commits@)) && !base.room(
            document_count(shown(commits@)),
        ),
        result matches Some(next) ==> {
            let (generation, writes) = replayed(base.generation, shown(commits@));
            &&& next.wf()
            &&& next.generation == generation
            &&& forall|rowid: i64| #[trigger]
                next.content(rowid) == operation::content_after(base.content(rowid), writes, rowid)
            &&& base.ordered() && valid_commits(shown(commits@)) ==> next.ordered()
            &&& base.faithful() ==> next.faithful()
            &&& base.well_fielded() && valid_commits(shown(commits@)) ==> next.well_fielded()
        },
{
    let ghost source = commits@;
    let ghost all = shown(commits@);
    let mut next = base;
    assert(all.take(0) =~= Seq::empty());
    for commit in it: commits
        invariant
            it.seq() == source,
            all == shown(source),
            next.wf(),
            next.generation == replayed(base.generation, all.take(it.index() as int)).0,
            forall|rowid: i64| #[trigger]
                next.content(rowid) == operation::content_after(
                    base.content(rowid),
                    replayed(base.generation, all.take(it.index() as int)).1,
                    rowid,
                ),
            base.ordered() && valid_commits(all) ==> next.ordered(),
            base.faithful() ==> next.faithful(),
            base.well_fielded() && valid_commits(all) ==> next.well_fielded(),
            next.live_docs <= base.live_docs + document_count(all.take(it.index() as int)),
            next.total_doc_len <= base.total_doc_len + document_count(all.take(it.index() as int))
                * u32::MAX,
    {
        let (generation, operations) = commit;
        let ghost index = it.index() as int;
        let ghost before = next;
        let ghost writes = operation::ops(operations@);
        let ghost earlier = replayed(base.generation, all.take(index));
        proof {
            assert(all.take(index + 1).drop_last() =~= all.take(index));
            assert(all.take(index + 1).last() == (generation, writes));
            lemma_count_grows(all, index + 1);
            let (done, step, total) = (
                document_count(all.take(index)),
                operation::document_count(writes),
                document_count(all),
            );
            assert((done + step) * u32::MAX == done * u32::MAX + step * u32::MAX)
                by (nonlinear_arith);
            assert(done + step <= total);
            assert((done + step) * u32::MAX <= total * u32::MAX) by (nonlinear_arith)
                requires
                    done + step <= total,
            ;
        }
        if generation > next.generation {
            next = match try_apply_operations(&next, generation, operations) {
                Some(applied) => applied,
                None => {
                    proof {
                        if base.room(document_count(all)) {
                            assert(next.room(operation::document_count(writes)));
                        }
                        assert(lacks_room(Some(base), all, index, next));
                    }
                    return None;
                },
            };
            proof {
                assert forall|rowid: i64| #[trigger]
                    next.content(rowid) == operation::content_after(
                        base.content(rowid),
                        replayed(base.generation, all.take(index + 1)).1,
                        rowid,
                    ) by {
                    assert(before.content(rowid) == operation::content_after(
                        base.content(rowid),
                        earlier.1,
                        rowid,
                    ));
                    operation::last_op_of_both(earlier.1, writes, rowid);
                }
                if valid_commits(all) {
                    assert forall|k: int| 0 <= k < writes.len() implies (
                    #[trigger] writes[k]).valid() by {
                        assert(all[index].1[k].valid());
                    }
                }
            }
        }
    }
    assert(all.take(source.len() as int) =~= all);
    Some(next)
}

/// Part of the commits write no more documents than all of them.
proof fn lemma_count_grows(commits: Commits, part: int)
    requires
        0 <= part <= commits.len(),
    ensures
        document_count(commits.take(part)) <= document_count(commits),
    decreases commits.len() - part,
{
    if part < commits.len() {
        assert(commits.take(part + 1).drop_last() =~= commits.take(part));
        lemma_count_grows(commits, part + 1);
    } else {
        assert(commits.take(part) =~= commits);
    }
}

} // verus!
