//! What calls leave behind that change what they are given.
use crate::cache::{shard_count, shard_index, CacheKey, QueryCache};
use crate::codec::{put_bytes, put_i64, put_u32, put_u64, put_var_u32};
use crate::error::{Error, Result};
use crate::operation::{ops, Op, Operation, Transaction};
use crate::logging;
use crate::query::SearchResult;
use crate::snapshot::Snapshot;
use crate::text;
use crate::writer::PreparedCommit;
use std::sync::Arc;
use vstd::prelude::*;

verus! {

/// What is handed in after one more write: the same writes and this one behind them.
pub open spec fn one_write_more(
    before: Result<Vec<Operation>>,
    after: Result<Vec<Operation>>,
    write: Op,
) -> bool {
    &&& before is Ok
    &&& after is Ok
    &&& ops(after->Ok_0@).len() == before->Ok_0@.len() + 1
    &&& ops(after->Ok_0@).last() == write
    &&& ops(after->Ok_0@).drop_last() == ops(before->Ok_0@)
}

/// A transaction starts without writes.
pub proof fn transactions_start_empty(transaction: Transaction, handed: Result<Vec<Operation>>)
    requires
        call_ensures(Transaction::begin, (), transaction),
        call_ensures(Transaction::commit, (transaction,), handed),
    ensures
        handed matches Ok(operations) && operations@.len() == 0,
{
    assert(ops(handed->Ok_0@).len() == 0);
}

/// A document that a transaction takes is handed in at its commit, behind the writes
/// before it; a closed transaction takes and hands in none.
pub proof fn upserts_are_handed_in(
    transaction: &mut Transaction,
    rowid: i64,
    fields: Vec<String>,
    result: Result<()>,
    before: Result<Vec<Operation>>,
    after: Result<Vec<Operation>>,
)
    requires
        call_ensures(Transaction::upsert, (transaction, rowid, fields), result),
        call_ensures(Transaction::commit, (*old(transaction),), before),
        call_ensures(Transaction::commit, (*final(transaction),), after),
    ensures
        before is Ok ==> result is Ok && one_write_more(
            before,
            after,
            Op::Upsert { rowid, fields: text::texts(fields@) },
        ),
        before is Err ==> (result matches Err(Error::TransactionClosed)) && after is Err,
{
    let write = Op::Upsert { rowid, fields: text::texts(fields@) };
    if before is Ok {
        lemma_push(ops(before->Ok_0@), ops(after->Ok_0@), write);
    }
}

/// A text that a transaction takes is handed in as a document of one field.
pub proof fn upserted_texts_are_handed_in(
    transaction: &mut Transaction,
    rowid: i64,
    content: String,
    result: Result<()>,
    before: Result<Vec<Operation>>,
    after: Result<Vec<Operation>>,
)
    requires
        call_ensures(Transaction::upsert_text, (transaction, rowid, content), result),
        call_ensures(Transaction::commit, (*old(transaction),), before),
        call_ensures(Transaction::commit, (*final(transaction),), after),
    ensures
        before is Ok ==> result is Ok && one_write_more(
            before,
            after,
            Op::Upsert { rowid, fields: seq![content@] },
        ),
        before is Err ==> (result matches Err(Error::TransactionClosed)) && after is Err,
{
    let write = Op::Upsert { rowid, fields: seq![content@] };
    if before is Ok {
        lemma_push(ops(before->Ok_0@), ops(after->Ok_0@), write);
    }
}

/// A deletion that a transaction takes is handed in at its commit, behind the writes
/// before it; a closed transaction takes and hands in none.
pub proof fn deletions_are_handed_in(
    transaction: &mut Transaction,
    rowid: i64,
    result: Result<()>,
    before: Result<Vec<Operation>>,
    after: Result<Vec<Operation>>,
)
    requires
        call_ensures(Transaction::delete, (transaction, rowid), result),
        call_ensures(Transaction::commit, (*old(transaction),), before),
        call_ensures(Transaction::commit, (*final(transaction),), after),
    ensures
        before is Ok ==> result is Ok && one_write_more(before, after, Op::Delete { rowid }),
        before is Err ==> (result matches Err(Error::TransactionClosed)) && after is Err,
{
    if before is Ok {
        lemma_push(ops(before->Ok_0@), ops(after->Ok_0@), Op::Delete { rowid });
    }
}

proof fn lemma_push(before: Seq<Op>, after: Seq<Op>, write: Op)
    requires
        after == before.push(write),
    ensures
        after.len() == before.len() + 1,
        after.last() == write,
        after.drop_last() == before,
{
    assert(after.drop_last() =~= before);
}

/// A transaction can be given up if and only if it can be committed.
pub proof fn open_transactions_can_be_given_up(
    transaction: Transaction,
    handed: Result<Vec<Operation>>,
    result: Result<()>,
)
    requires
        call_ensures(Transaction::commit, (transaction,), handed),
        call_ensures(Transaction::rollback, (transaction,), result),
    ensures
        result is Ok <==> handed is Ok,
        result matches Err(error) ==> error is TransactionClosed,
        handed matches Err(error) ==> error is TransactionClosed,
{
}

/// The results show the same hits, and were found in the same way.
pub open spec fn same_answers(left: SearchResult, right: SearchResult) -> bool {
    &&& left.hits@.len() == right.hits@.len()
    &&& forall|i: int|
        0 <= i < left.hits@.len() ==> (#[trigger] left.hits@[i]).rowid == right.hits@[i].rowid
            && left.hits@[i].score == right.hits@[i].score && text::texts(left.hits@[i].fields@)
            == text::texts(right.hits@[i].fields@)
    &&& left.generation == right.generation
    &&& left.is_approximate == right.is_approximate
    &&& left.stats == right.stats
}

/// A result that was entered into a cache with room is found again under its key, and
/// under no key for another question.
pub proof fn entered_results_are_found_again(
    cache: &mut QueryCache,
    key: CacheKey,
    value: Arc<SearchResult>,
    later: &mut QueryCache,
    asked: CacheKey,
    result: Option<SearchResult>,
)
    requires
        old(cache).wf(),
        old(cache).capacity > 0,
        call_ensures(QueryCache::insert, (cache, key, value), ()),
        *old(later) == *final(cache),
        call_ensures(QueryCache::get, (later, &asked), result),
    ensures
        key.same(asked) ==> (result matches Some(found) && same_answers(found, *value)),
        !key.same(asked) ==> (result matches Some(found) ==> exists|i: int|
            0 <= i < old(cache).entries@.len() && (
            #[trigger] old(cache).entries@[i]).0.same(asked) && same_answers(
                found,
                *old(cache).entries@[i].1,
            )),
        final(later).capacity == old(cache).capacity,
{
    let entries = old(cache).entries@;
    let capacity = old(cache).capacity as nat;
    crate::cache::entered_result_is_found(entries, capacity, key, value, asked);
    if let Some(found) = result {
        let kept = crate::cache::lookup(old(later).entries@, asked)->0;
        lemma_kept(kept, found);
        if !key.same(asked) {
            let i = crate::cache::place(entries, asked);
            assert(crate::cache::lookup(entries, asked) == Some(kept));
            assert(entries[i].0.same(asked));
        }
    }
}

proof fn lemma_kept(kept: Arc<SearchResult>, found: SearchResult)
    requires
        kept.same(found),
    ensures
        same_answers(found, *kept),
{
    assert forall|i: int| 0 <= i < found.hits@.len() implies (#[trigger] found.hits@[i]).rowid
        == kept.hits@[i].rowid && found.hits@[i].score == kept.hits@[i].score && text::texts(
        found.hits@[i].fields@,
    ) == text::texts(kept.hits@[i].fields@) by {
        assert(kept.hits@[i].same(found.hits@[i]));
    }
}

/// A cache starts empty, and is empty when it was cleared; an empty one finds nothing.
pub proof fn empty_caches_find_nothing(
    capacity: usize,
    fresh: QueryCache,
    cache: &mut QueryCache,
    later: &mut QueryCache,
    asked: CacheKey,
    result: Option<SearchResult>,
)
    requires
        call_ensures(QueryCache::new, (capacity,), fresh),
        call_ensures(QueryCache::clear, (cache,), ()),
        *old(later) == fresh || *old(later) == *final(cache),
        call_ensures(QueryCache::get, (later, &asked), result),
    ensures
        fresh.capacity == capacity,
        final(cache).capacity == old(cache).capacity,
        result is None,
{
}

/// A cache is divided into one to sixteen parts, each with room for a result but where
/// there is no room at all; fewer than sixteen only where more would be empty.
pub proof fn caches_are_divided(total: usize, count: usize)
    requires
        call_ensures(shard_count, (total,), count),
    ensures
        1 <= count <= 16,
        total > 0 ==> count <= total,
        count < 16 && total > 0 ==> count == total,
{
}

/// Keys are spread over all parts: those whose hashes follow each other stand in parts
/// that do, and the first part follows the last.
pub proof fn keys_are_spread(hash: u64, shards: usize, index: usize, following: usize)
    requires
        shards > 0,
        hash < u64::MAX,
        hash < usize::MAX,
        call_ensures(shard_index, (hash, shards), index),
        call_ensures(shard_index, ((hash + 1) as u64, shards), following),
    ensures
        index < shards,
        following == if index + 1 == shards {
            0
        } else {
            index + 1
        },
        hash < shards ==> index == hash,
{
    let (h, n) = (hash as int, shards as int);
    vstd::arithmetic::div_mod::lemma_fundamental_div_mod(h, n);
    let whole = h / n;
    if index + 1 == shards {
        assert(h + 1 == n * (whole + 1)) by (nonlinear_arith)
            requires
                h == n * whole + (n - 1),
        ;
        vstd::arithmetic::div_mod::lemma_fundamental_div_mod_converse(h + 1, n, whole + 1, 0);
    } else {
        vstd::arithmetic::div_mod::lemma_fundamental_div_mod_converse(
            h + 1,
            n,
            whole,
            index as int + 1,
        );
    }
    if hash < shards {
        vstd::arithmetic::div_mod::lemma_small_mod(hash as nat, shards as nat);
    }
}

/// A commit is sealed as the record of its writes in the log, if that holds no more than
/// 256 MiB, and can then be published as before.
pub proof fn sealed_commits_are_records(
    prepared: &mut PreparedCommit,
    generation: u64,
    result: Result<Vec<u8>>,
)
    requires
        old(prepared).wf(),
        call_ensures(PreparedCommit::seal, (prepared, generation), result),
    ensures
        result is Ok <==> crate::commit::commit_bytes(generation, old(prepared).writes@).len()
            <= 256 * 1024 * 1024,
        result matches Ok(bytes) ==> bytes@ == logging::kept_as(
            seq![(generation, old(prepared).writes@)],
        ),
        final(prepared).wf(),
        final(prepared).writes@ == old(prepared).writes@,
{
    if let Ok(bytes) = result {
        let commits = seq![(generation, old(prepared).writes@)];
        let all = commits.map_values(
            |commit: (u64, Seq<Op>)|
                crate::wal::frame_bytes(
                    crate::wal::WAL_MAGIC@,
                    crate::commit::commit_bytes(commit.0, commit.1),
                ),
        );
        assert(all.drop_first() =~= Seq::empty());
        assert(all.drop_first().flatten() =~= Seq::empty());
        assert(all.flatten() =~= all[0] + all.drop_first().flatten());
        assert(logging::kept_as(commits) =~= bytes@);
    }
}

/// A new database is empty.
pub proof fn new_databases_are_empty(snapshot: Snapshot, rowid: i64, fields: Option<Vec<String>>)
    requires
        call_ensures(Snapshot::default, (), snapshot),
        call_ensures(Snapshot::get, (&snapshot, rowid), fields),
    ensures
        snapshot.wf() && snapshot.ordered() && snapshot.faithful(),
        snapshot.generation == 0,
        snapshot.live_docs == 0,
        snapshot.content(rowid) is None,
        fields is None,
{
    assert(!snapshot.latest@.contains_key(rowid));
}

/// There is room as long as no counter of documents passes 32 bits and no counter of
/// terms 64, whatever the documents hold.
pub proof fn counters_have_room(snapshot: &Snapshot, docs: usize, result: bool)
    requires
        call_ensures(Snapshot::has_room, (snapshot, docs), result),
    ensures
        result <==> snapshot.live_docs + docs < 0x1_0000_0000 && snapshot.total_doc_len + docs
            * 0xffff_ffff < 0x1_0000_0000_0000_0000,
{
}

/// Numbers and texts are written behind what was written before.
pub proof fn numbers_are_appended(
    out: &mut Vec<u8>,
    word: u32,
    out2: &mut Vec<u8>,
    long: u64,
    out3: &mut Vec<u8>,
    rowid: i64,
    out4: &mut Vec<u8>,
    count: u32,
)
    requires
        call_ensures(put_u32, (out, word), ()),
        call_ensures(put_u64, (out2, long), ()),
        call_ensures(put_i64, (out3, rowid), ()),
        call_ensures(put_var_u32, (out4, count), ()),
    ensures
        old(out)@.is_prefix_of(final(out)@) && final(out)@.len() == old(out)@.len() + 4,
        old(out2)@.is_prefix_of(final(out2)@) && final(out2)@.len() == old(out2)@.len() + 8,
        old(out3)@.is_prefix_of(final(out3)@) && final(out3)@.len() == old(out3)@.len() + 8,
        old(out4)@.is_prefix_of(final(out4)@) && crate::layout::by_sevens(
            final(out4)@.skip(old(out4)@.len() as int),
        ) == count,
{
    broadcast use crate::codec::le_bytes_len;

    crate::layout::numbers_are_written_by_sevens(count as nat);
    assert(final(out4)@.skip(old(out4)@.len() as int) =~= crate::codec::var_bytes(count as nat));
}

/// Bytes are written behind their number, if it fits in 32 bits; else nothing is.
pub proof fn bytes_are_appended(out: &mut Vec<u8>, value: &[u8], result: Result<()>)
    requires
        call_ensures(put_bytes, (out, value), result),
    ensures
        result is Ok <==> value@.len() < 0x1_0000_0000,
        result is Err ==> final(out)@ == old(out)@,
        result is Ok ==> final(out)@.len() == old(out)@.len() + 4 + value@.len()
            && final(out)@.take(old(out)@.len() as int) == old(out)@ && final(out)@.skip(
            old(out)@.len() as int + 4,
        ) == value@,
{
    broadcast use crate::codec::le_bytes_len;

    if result is Ok {
        assert(final(out)@.take(old(out)@.len() as int) =~= old(out)@);
        assert(final(out)@.skip(old(out)@.len() as int + 4) =~= value@);
    }
}

} // verus!
