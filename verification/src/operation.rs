//! Writes, the transactions that collect them, and what they do to a snapshot.
use crate::error::{invalid_input, Error, Result};
use crate::snapshot;
use crate::snapshot::Snapshot;
use crate::sorting;
use crate::sorting::sort_entries;
use crate::text;
use std::collections::HashMap;
use vstd::prelude::*;

verus! {

broadcast use vstd::std_specs::hash::group_hash_axioms;

/// One write.
#[derive(Debug, PartialEq, Eq)]
pub enum Operation {
    Upsert { rowid: i64, fields: Vec<String> },
    Delete { rowid: i64 },
}

/// One write, as contracts see it.
pub enum Op {
    Upsert { rowid: i64, fields: Seq<Seq<char>> },
    Delete { rowid: i64 },
}

impl View for Operation {
    type V = Op;

    open spec fn view(&self) -> Op {
        match self {
            Operation::Upsert { rowid, fields } => Op::Upsert {
                rowid: *rowid,
                fields: text::texts(fields@),
            },
            Operation::Delete { rowid } => Op::Delete { rowid: *rowid },
        }
    }
}

impl Op {
    pub open spec fn rowid(self) -> i64 {
        match self {
            Op::Upsert { rowid, fields } => rowid,
            Op::Delete { rowid } => rowid,
        }
    }

    /// What the write leaves as the content of its rowid.
    pub open spec fn content(self) -> Option<Seq<Seq<char>>> {
        match self {
            Op::Upsert { rowid, fields } => Some(fields),
            Op::Delete { rowid } => None,
        }
    }

    /// A document has between one and 64 fields.
    pub open spec fn valid(self) -> bool {
        self matches Op::Upsert { rowid, fields } ==> 1 <= fields.len() <= 64
    }
}

/// The writes as contracts see them.
pub open spec fn ops(operations: Seq<Operation>) -> Seq<Op> {
    operations.map_values(|operation: Operation| operation@)
}

/// The last write to a rowid, if there is one.
pub open spec fn last_op(writes: Seq<Op>, rowid: i64) -> Option<Op>
    decreases writes.len(),
{
    if writes.len() == 0 {
        None
    } else if writes.last().rowid() == rowid {
        Some(writes.last())
    } else {
        last_op(writes.drop_last(), rowid)
    }
}

/// `canonical` holds the last write to each rowid that `writes` writes to, in the
/// order of the rowids.
pub open spec fn is_canonical(canonical: Seq<Op>, writes: Seq<Op>) -> bool {
    &&& forall|i: int, j: int|
        0 <= i < j < canonical.len() ==> (#[trigger] canonical[i]).rowid() < (
        #[trigger] canonical[j]).rowid()
    &&& forall|i: int|
        0 <= i < canonical.len() ==> last_op(writes, (#[trigger] canonical[i]).rowid()) == Some(
            canonical[i],
        )
    &&& forall|rowid: i64| #[trigger]
        last_op(writes, rowid) is Some ==> exists|i: int|
            0 <= i < canonical.len() && (#[trigger] canonical[i]).rowid() == rowid
}

/// What `writes` leave as the content of one rowid.
pub open spec fn content_after(
    before: Option<Seq<Seq<char>>>,
    writes: Seq<Op>,
    rowid: i64,
) -> Option<Seq<Seq<char>>> {
    match last_op(writes, rowid) {
        Some(op) => op.content(),
        None => before,
    }
}

/// Writes to be committed together. Nothing is visible before the commit.
#[derive(Debug)]
pub struct Transaction {
    pub operations: Option<Vec<Operation>>,
}

impl Transaction {
    /// The writes so far.
    pub open spec fn writes(self) -> Option<Seq<Op>> {
        match self.operations {
            Some(operations) => Some(ops(operations@)),
            None => None,
        }
    }

    /// A transaction without writes.
    pub fn begin() -> (transaction: Self)
        ensures
            transaction.writes() == Some(Seq::<Op>::empty()),
    {
        let transaction = Transaction { operations: Some(Vec::new()) };
        assert(transaction.writes()->0 =~= Seq::empty());
        transaction
    }

    fn record(&mut self, operation: Operation) -> (result: Result<()>)
        ensures
            match old(self).writes() {
                Some(writes) => result is Ok && final(self).writes() == Some(
                    writes.push(operation@),
                ),
                None => result == Err::<(), Error>(Error::TransactionClosed)
                    && final(self).writes() is None,
            },
    {
        let ghost before = self.writes();
        match &mut self.operations {
            Some(operations) => {
                operations.push(operation);
            },
            None => {
                return Err(Error::TransactionClosed);
            },
        }
        assert(self.writes()->0 =~= before->0.push(operation@));
        Ok(())
    }

    /// Writes a document.
    pub fn upsert(&mut self, rowid: i64, fields: Vec<String>) -> (result: Result<()>)
        ensures
            match old(self).writes() {
                Some(writes) => result is Ok && final(self).writes() == Some(
                    writes.push(Op::Upsert { rowid, fields: text::texts(fields@) }),
                ),
                None => result == Err::<(), Error>(Error::TransactionClosed)
                    && final(self).writes() is None,
            },
    {
        self.record(Operation::Upsert { rowid, fields })
    }

    /// Writes a document of one field.
    pub fn upsert_text(&mut self, rowid: i64, text: String) -> (result: Result<()>)
        ensures
            match old(self).writes() {
                Some(writes) => result is Ok && final(self).writes() == Some(
                    writes.push(Op::Upsert { rowid, fields: seq![text@] }),
                ),
                None => result == Err::<(), Error>(Error::TransactionClosed)
                    && final(self).writes() is None,
            },
    {
        let mut fields: Vec<String> = Vec::new();
        fields.push(text);
        assert(text::texts(fields@) =~= seq![text@]);
        self.upsert(rowid, fields)
    }

    /// Deletes a document.
    pub fn delete(&mut self, rowid: i64) -> (result: Result<()>)
        ensures
            match old(self).writes() {
                Some(writes) => result is Ok && final(self).writes() == Some(
                    writes.push(Op::Delete { rowid }),
                ),
                None => result == Err::<(), Error>(Error::TransactionClosed)
                    && final(self).writes() is None,
            },
    {
        self.record(Operation::Delete { rowid })
    }

    /// Hands out the writes.
    pub fn commit(self) -> (result: Result<Vec<Operation>>)
        ensures
            match self.operations {
                Some(operations) => result == Ok::<Vec<Operation>, Error>(operations),
                None => result == Err::<Vec<Operation>, Error>(Error::TransactionClosed),
            },
    {
        match self.operations {
            Some(operations) => Ok(operations),
            None => Err(Error::TransactionClosed),
        }
    }

    /// Drops the writes.
    pub fn rollback(self) -> (result: Result<()>)
        ensures
            self.operations is Some ==> result is Ok,
            self.operations is None ==> result == Err::<(), Error>(Error::TransactionClosed),
    {
        match self.operations {
            Some(_) => Ok(()),
            None => Err(Error::TransactionClosed),
        }
    }
}

/// All of the writes are valid.
pub open spec fn all_valid(writes: Seq<Op>) -> bool {
    forall|i: int| 0 <= i < writes.len() ==> (#[trigger] writes[i]).valid()
}

/// Whether `error` is what the first invalid write is refused with.
pub open spec fn refusal(writes: Seq<Op>, error: Error) -> bool {
    exists|i: int|
        0 <= i < writes.len() && !(#[trigger] writes[i]).valid() && (forall|j: int|
            0 <= j < i ==> (#[trigger] writes[j]).valid()) && (writes[i] matches Op::Upsert {
            rowid,
            fields,
        } && if fields.len() == 0 {
            error.is_invalid_input("a document requires at least one field"@)
        } else {
            error.is_invalid_input("a document supports at most 64 fields"@)
        })
}

/// Refuses documents without fields or with more than 64.
pub fn validate_operations(operations: &Vec<Operation>) -> (result: Result<()>)
    ensures
        result is Ok <==> forall|i: int|
            0 <= i < operations@.len() ==> (#[trigger] ops(operations@)[i]).valid(),
        result is Ok <==> all_valid(ops(operations@)),
        result matches Err(error) ==> refusal(ops(operations@), error),
{
    let ghost writes = ops(operations@);
    let mut done: usize = 0;
    while done < operations.len()
        invariant
            done <= operations@.len(),
            writes == ops(operations@),
            forall|i: int| 0 <= i < done ==> (#[trigger] writes[i]).valid(),
        decreases operations@.len() - done,
    {
        assert(writes[done as int] == operations@[done as int]@);
        if let Operation::Upsert { rowid, fields } = &operations[done] {
            assert(writes[done as int] == (Op::Upsert {
                rowid: *rowid,
                fields: text::texts(fields@),
            }));
            if fields.len() == 0 {
                assert(!writes[done as int].valid());
                return Err(invalid_input("a document requires at least one field"));
            }
            if fields.len() > 64 {
                assert(!writes[done as int].valid());
                return Err(invalid_input("a document supports at most 64 fields"));
            }
        }
        done = done + 1;
    }
    Ok(())
}

fn rowid_of(operation: &Operation) -> (rowid: i64)
    ensures
        rowid == operation@.rowid(),
{
    match operation {
        Operation::Upsert { rowid, .. } => *rowid,
        Operation::Delete { rowid } => *rowid,
    }
}

/// What the map of last writes holds after some writes.
spec fn remembers(last: Map<i64, Operation>, writes: Seq<Op>, rowid: i64) -> bool {
    match last_op(writes, rowid) {
        Some(op) => last.contains_key(rowid) && last[rowid]@ == op,
        None => !last.contains_key(rowid),
    }
}

pub(crate) proof fn lemma_last_op_rowid(writes: Seq<Op>, rowid: i64)
    ensures
        last_op(writes, rowid) matches Some(op) ==> op.rowid() == rowid,
    decreases writes.len(),
{
    if writes.len() > 0 && writes.last().rowid() != rowid {
        lemma_last_op_rowid(writes.drop_last(), rowid);
    }
}

/// The last write of two runs is that of the later one, if it has any.
pub proof fn last_op_of_both(first: Seq<Op>, second: Seq<Op>, rowid: i64)
    ensures
        last_op(first + second, rowid) == match last_op(second, rowid) {
            Some(op) => Some(op),
            None => last_op(first, rowid),
        },
    decreases second.len(),
{
    let both = first + second;
    if second.len() == 0 {
        assert(both =~= first);
    } else {
        assert(both.last() == second.last());
        assert(both.drop_last() =~= first + second.drop_last());
        last_op_of_both(first, second.drop_last(), rowid);
    }
}

/// The last write to each rowid, in the order of the rowids.
pub open spec fn canonical_ops(writes: Seq<Op>) -> Seq<Op> {
    choose|canonical: Seq<Op>| #[trigger] is_canonical(canonical, writes)
}

/// There is one canonical form.
pub proof fn canonical_form_is_unique(a: Seq<Op>, b: Seq<Op>, writes: Seq<Op>)
    requires
        is_canonical(a, writes),
        is_canonical(b, writes),
    ensures
        a == b,
{
    lemma_canonical_members(a, b, writes);
    lemma_canonical_members(b, a, writes);
    lemma_same_members(a, b);
}

proof fn lemma_canonical_members(a: Seq<Op>, b: Seq<Op>, writes: Seq<Op>)
    requires
        is_canonical(a, writes),
        is_canonical(b, writes),
    ensures
        forall|i: int| 0 <= i < a.len() ==> b.contains(#[trigger] a[i]),
{
    assert forall|i: int| 0 <= i < a.len() implies b.contains(#[trigger] a[i]) by {
        let rowid = a[i].rowid();
        assert(last_op(writes, rowid) == Some(a[i]));
        let j = choose|j: int| 0 <= j < b.len() && (#[trigger] b[j]).rowid() == rowid;
        assert(last_op(writes, b[j].rowid()) == Some(b[j]));
    }
}

proof fn lemma_same_members(a: Seq<Op>, b: Seq<Op>)
    requires
        forall|i: int, j: int|
            0 <= i < j < a.len() ==> (#[trigger] a[i]).rowid() < (#[trigger] a[j]).rowid(),
        forall|i: int, j: int|
            0 <= i < j < b.len() ==> (#[trigger] b[i]).rowid() < (#[trigger] b[j]).rowid(),
        forall|i: int| 0 <= i < a.len() ==> b.contains(#[trigger] a[i]),
        forall|i: int| 0 <= i < b.len() ==> a.contains(#[trigger] b[i]),
    ensures
        a == b,
    decreases a.len(),
{
    if a.len() == 0 {
        if b.len() > 0 {
            assert(a.contains(b[0]));
        }
        assert(a =~= b);
    } else {
        let (x, y) = (a.len() - 1, b.len() - 1);
        assert(b.contains(a[x]));
        let j = choose|j: int| 0 <= j < b.len() && b[j] == a[x];
        assert(a.contains(b[y]));
        let i = choose|i: int| 0 <= i < a.len() && a[i] == b[y];
        assert(a[x].rowid() <= b[y].rowid());
        assert(b[y].rowid() <= a[x].rowid());
        assert(j == y);
        let (front, other) = (a.drop_last(), b.drop_last());
        assert forall|i: int| 0 <= i < front.len() implies other.contains(#[trigger] front[i]) by {
            assert(b.contains(a[i]));
            let j = choose|j: int| 0 <= j < b.len() && b[j] == a[i];
            assert(a[i].rowid() < a[x].rowid());
            assert(other[j] == front[i]);
        }
        assert forall|i: int| 0 <= i < other.len() implies front.contains(#[trigger] other[i]) by {
            assert(a.contains(b[i]));
            let j = choose|j: int| 0 <= j < a.len() && a[j] == b[i];
            assert(b[i].rowid() < b[y].rowid());
            assert(front[j] == other[i]);
        }
        lemma_same_members(front, other);
        assert(a =~= front.push(a[x]));
        assert(b =~= other.push(b[y]));
    }
}

/// There is a canonical form.
pub proof fn canonical_form_exists(writes: Seq<Op>)
    ensures
        is_canonical(canonical_ops(writes), writes),
    decreases writes.len(),
{
    if writes.len() == 0 {
        assert(is_canonical(Seq::empty(), writes));
    } else {
        let front = writes.drop_last();
        canonical_form_exists(front);
        let before = canonical_ops(front);
        let last = writes.last();
        let place = lemma_place(before, last.rowid());
        let built = if place < before.len() && before[place].rowid() == last.rowid() {
            before.update(place, last)
        } else {
            before.insert(place, last)
        };
        lemma_built(before, front, last, place, built);
        assert(front.push(last) =~= writes);
        assert(is_canonical(built, writes));
    }
}

/// Where a rowid belongs among ascending ones.
proof fn lemma_place(canonical: Seq<Op>, rowid: i64) -> (place: int)
    requires
        forall|i: int, j: int|
            0 <= i < j < canonical.len() ==> (#[trigger] canonical[i]).rowid() < (
            #[trigger] canonical[j]).rowid(),
    ensures
        0 <= place <= canonical.len(),
        forall|i: int| 0 <= i < place ==> (#[trigger] canonical[i]).rowid() < rowid,
        forall|i: int| place <= i < canonical.len() ==> rowid <= (#[trigger] canonical[i]).rowid(),
    decreases canonical.len(),
{
    if canonical.len() == 0 {
        0
    } else if canonical.last().rowid() < rowid {
        assert(canonical[canonical.len() - 1] == canonical.last());
        canonical.len() as int
    } else {
        let front = canonical.drop_last();
        assert(forall|i: int| 0 <= i < front.len() ==> front[i] == canonical[i]);
        let place = lemma_place(front, rowid);
        assert forall|i: int| place <= i < canonical.len() implies rowid <= (
        #[trigger] canonical[i]).rowid() by {
            if i < front.len() {
                assert(front[i] == canonical[i]);
            }
        }
        place
    }
}

proof fn lemma_built(before: Seq<Op>, front: Seq<Op>, last: Op, place: int, built: Seq<Op>)
    requires
        is_canonical(before, front),
        0 <= place <= before.len(),
        forall|i: int| 0 <= i < place ==> (#[trigger] before[i]).rowid() < last.rowid(),
        forall|i: int|
            place <= i < before.len() ==> last.rowid() <= (#[trigger] before[i]).rowid(),
        built == if place < before.len() && before[place].rowid() == last.rowid() {
            before.update(place, last)
        } else {
            before.insert(place, last)
        },
    ensures
        is_canonical(built, front.push(last)),
{
    let writes = front.push(last);
    assert(writes.drop_last() =~= front);
    let replaces = place < before.len() && before[place].rowid() == last.rowid();
    assert(built[place] == last);
    assert forall|i: int| 0 <= i < built.len() && i != place implies ({
        let from = if replaces || i < place {
            i
        } else {
            i - 1
        };
        #[trigger] built[i] == before[from] && before[from].rowid() != last.rowid()
    }) by {
        let from = if replaces || i < place {
            i
        } else {
            i - 1
        };
        if replaces && from != place {
            if from < place {
                assert(before[from].rowid() < before[place].rowid());
            } else {
                assert(before[place].rowid() < before[from].rowid());
            }
        }
        if !replaces && from > place {
            assert(before[place].rowid() < before[from].rowid());
        }
    }
    assert forall|i: int, j: int| 0 <= i < j < built.len() implies (#[trigger] built[i]).rowid()
        < (#[trigger] built[j]).rowid() by {
        let from = if replaces || i < place {
            i
        } else {
            i - 1
        };
        let to = if replaces || j < place {
            j
        } else {
            j - 1
        };
        if i != place && j != place {
            assert(built[i] == before[from] && built[j] == before[to]);
            assert(before[from].rowid() < before[to].rowid());
        } else if i == place {
            assert(built[j] == before[to]);
        } else {
            assert(built[i] == before[from]);
        }
    }
    assert forall|i: int| 0 <= i < built.len() implies last_op(
        writes,
        (#[trigger] built[i]).rowid(),
    ) == Some(built[i]) by {
        if i != place {
            let from = if replaces || i < place {
                i
            } else {
                i - 1
            };
            assert(built[i] == before[from]);
            assert(last_op(front, before[from].rowid()) == Some(before[from]));
        }
    }
    assert forall|rowid: i64| #[trigger] last_op(writes, rowid) is Some implies exists|i: int|
        0 <= i < built.len() && (#[trigger] built[i]).rowid() == rowid by {
        if rowid == last.rowid() {
            assert(built[place].rowid() == rowid);
        } else {
            assert(last_op(front, rowid) is Some);
            let i = choose|i: int|
                0 <= i < before.len() && (#[trigger] before[i]).rowid() == rowid;
            let to = if replaces || i < place {
                i
            } else {
                i + 1
            };
            assert(built[to] == before[i]);
        }
    }
}

/// Canonical writes leave the same contents as the writes they stand for.
pub proof fn canonical_form_keeps_contents(
    canonical: Seq<Op>,
    writes: Seq<Op>,
    before: Option<Seq<Seq<char>>>,
    rowid: i64,
)
    requires
        is_canonical(canonical, writes),
    ensures
        content_after(before, canonical, rowid) == content_after(before, writes, rowid),
{
    lemma_last_op_rowid(canonical, rowid);
    lemma_last_op_is_write(canonical, rowid);
    if last_op(canonical, rowid) is Some {
        let op = last_op(canonical, rowid)->0;
        let j = choose|j: int| 0 <= j < canonical.len() && #[trigger] canonical[j] == op;
        assert(last_op(writes, canonical[j].rowid()) == Some(canonical[j]));
    } else if last_op(writes, rowid) is Some {
        let i = choose|i: int|
            0 <= i < canonical.len() && (#[trigger] canonical[i]).rowid() == rowid;
        lemma_last_op_exists(canonical, i);
    }
}

proof fn lemma_last_op_exists(writes: Seq<Op>, i: int)
    requires
        0 <= i < writes.len(),
    ensures
        last_op(writes, writes[i].rowid()) is Some,
    decreases writes.len(),
{
    if writes.last().rowid() != writes[i].rowid() {
        assert(i < writes.len() - 1);
        assert(writes.drop_last()[i] == writes[i]);
        lemma_last_op_exists(writes.drop_last(), i);
    }
}

/// Canonical forms of valid writes are valid.
pub proof fn canonical_form_is_valid(canonical: Seq<Op>, writes: Seq<Op>)
    requires
        is_canonical(canonical, writes),
        forall|i: int| 0 <= i < writes.len() ==> (#[trigger] writes[i]).valid(),
    ensures
        forall|i: int| 0 <= i < canonical.len() ==> (#[trigger] canonical[i]).valid(),
{
    assert forall|i: int| 0 <= i < canonical.len() implies (#[trigger] canonical[i]).valid() by {
        assert(last_op(writes, canonical[i].rowid()) == Some(canonical[i]));
        lemma_last_op_is_write(writes, canonical[i].rowid());
        let j = choose|j: int| 0 <= j < writes.len() && #[trigger] writes[j] == canonical[i];
        assert(writes[j].valid());
    }
}

/// Brings writes into their canonical form.
pub fn canonicalize_operations(operations: Vec<Operation>) -> (canonical: Vec<Operation>)
    ensures
        is_canonical(ops(canonical@), ops(operations@)),
        ops(canonical@) == canonical_ops(ops(operations@)),
        canonical@.len() <= operations@.len(),
{
    let ghost source = operations@;
    let ghost writes = ops(operations@);
    let mut last: HashMap<i64, Operation> = HashMap::new();
    let mut seen: Vec<(i64, usize)> = Vec::new();
    assert(writes.take(0) =~= Seq::empty());
    for operation in it: operations
        invariant
            it.seq() == source,
            writes == ops(source),
            forall|rowid: i64| #[trigger]
                remembers(last@, writes.take(it.index() as int), rowid),
            seen@.len() <= it.index(),
            forall|i: int| 0 <= i < seen@.len() ==> last@.contains_key((#[trigger] seen@[i]).0),
            forall|i: int, j: int|
                0 <= i < j < seen@.len() ==> (#[trigger] seen@[i]).0 != (#[trigger] seen@[j]).0,
            forall|rowid: i64| #[trigger]
                last@.contains_key(rowid) ==> exists|i: int|
                    0 <= i < seen@.len() && (#[trigger] seen@[i]).0 == rowid,
    {
        let rowid: i64 = rowid_of(&operation);
        let ghost old_last = last@;
        let ghost old_seen = seen@;
        let ghost index = it.index() as int;
        let ghost op = operation@;
        proof {
            assert(writes.take(index + 1).drop_last() =~= writes.take(index));
            assert(writes.take(index + 1).last() == op);
        }
        let replaced = last.insert(rowid, operation);
        if replaced.is_none() {
            assert(!old_last.contains_key(rowid));
            seen.push((rowid, 0));
        }
        proof {
            assert forall|other: i64| #[trigger]
                remembers(last@, writes.take(index + 1), other) by {
                assert(remembers(old_last, writes.take(index), other));
            }
            assert forall|other: i64| #[trigger] last@.contains_key(other) implies exists|i: int|
                0 <= i < seen@.len() && (#[trigger] seen@[i]).0 == other by {
                if other == rowid && !old_last.contains_key(rowid) {
                    assert(seen@[old_seen.len() as int].0 == rowid);
                } else {
                    assert(old_last.contains_key(other));
                    let i = choose|i: int|
                        0 <= i < old_seen.len() && (#[trigger] old_seen[i]).0 == other;
                    assert(seen@[i].0 == other);
                }
            }
            assert forall|i: int, j: int| 0 <= i < j < seen@.len() implies (#[trigger] seen@[i]).0
                != (#[trigger] seen@[j]).0 by {
                if j == old_seen.len() {
                    assert(old_last.contains_key(old_seen[i].0));
                }
            }
        }
    }
    assert(writes.take(source.len() as int) =~= writes);
    let ghost unsorted = seen@;
    let order = sort_entries(seen);
    let ghost full = last@;
    proof {
        sorting::same_entries(unsorted, order@);
        assert(unsorted.no_duplicates());
        assert forall|i: int, j: int| 0 <= i < j < order@.len() implies (#[trigger] order@[i]).0
            < (#[trigger] order@[j]).0 by {
            assert(sorting::not_after(order@[i], order@[j]));
            if order@[i].0 == order@[j].0 {
                assert(order@.contains(order@[i]) && order@.contains(order@[j]));
                assert(unsorted.contains(order@[i]) && unsorted.contains(order@[j]));
                let a = choose|a: int| 0 <= a < unsorted.len() && unsorted[a] == order@[i];
                let b = choose|b: int| 0 <= b < unsorted.len() && unsorted[b] == order@[j];
                assert(a == b);
                assert(order@[i] == order@[j]);
            }
        }
        assert forall|i: int| 0 <= i < order@.len() implies full.contains_key(
            (#[trigger] order@[i]).0,
        ) by {
            assert(order@.contains(order@[i]));
            assert(unsorted.contains(order@[i]));
            let a = choose|a: int| 0 <= a < unsorted.len() && unsorted[a] == order@[i];
            assert(full.contains_key(unsorted[a].0));
        }
    }
    let mut canonical: Vec<Operation> = Vec::new();
    let mut done: usize = 0;
    while done < order.len()
        invariant
            done <= order@.len(),
            canonical@.len() == done,
            forall|i: int, j: int|
                0 <= i < j < order@.len() ==> (#[trigger] order@[i]).0 < (#[trigger] order@[j]).0,
            forall|i: int| 0 <= i < order@.len() ==> full.contains_key((#[trigger] order@[i]).0),
            forall|i: int|
                done <= i < order@.len() ==> last@.contains_key((#[trigger] order@[i]).0)
                    && last@[order@[i].0] == full[order@[i].0],
            forall|i: int| 0 <= i < done ==> #[trigger] canonical@[i] == full[order@[i].0],
        decreases order@.len() - done,
    {
        let (rowid, place) = order[done];
        assert(last@.contains_key(order@[done as int].0));
        let taken = last.remove(&rowid);
        if let Some(operation) = taken {
            canonical.push(operation);
        }
        assert forall|i: int| done + 1 <= i < order@.len() implies last@.contains_key(
            (#[trigger] order@[i]).0,
        ) && last@[order@[i].0] == full[order@[i].0] by {
            assert(order@[done as int].0 < order@[i].0);
        }
        done = done + 1;
    }
    proof {
        let result = ops(canonical@);
        assert forall|i: int| 0 <= i < result.len() implies last_op(
            writes,
            (#[trigger] result[i]).rowid(),
        ) == Some(result[i]) && result[i].rowid() == order@[i].0 by {
            assert(canonical@[i] == full[order@[i].0]);
            assert(full.contains_key(order@[i].0));
            assert(remembers(full, writes, order@[i].0));
            lemma_last_op_rowid(writes, order@[i].0);
        }
        assert forall|i: int, j: int| 0 <= i < j < result.len() implies (
        #[trigger] result[i]).rowid() < (#[trigger] result[j]).rowid() by {
            assert(order@[i].0 < order@[j].0);
        }
        assert forall|rowid: i64| #[trigger] last_op(writes, rowid) is Some implies exists|i: int|
            0 <= i < result.len() && (#[trigger] result[i]).rowid() == rowid by {
            assert(remembers(full, writes, rowid));
            assert(full.contains_key(rowid));
            let a = choose|a: int| 0 <= a < unsorted.len() && (#[trigger] unsorted[a]).0 == rowid;
            assert(unsorted.contains(unsorted[a]));
            assert(order@.contains(unsorted[a]));
            let i = choose|i: int| 0 <= i < order@.len() && order@[i] == unsorted[a];
            assert(result[i].rowid() == order@[i].0);
        }
        assert(is_canonical(result, writes));
        canonical_form_is_unique(result, canonical_ops(writes), writes);
    }
    canonical
}

/// The documents that the writes write.
pub open spec fn docs_of(writes: Seq<Op>) -> Seq<(i64, Seq<Seq<char>>)>
    decreases writes.len(),
{
    if writes.len() == 0 {
        Seq::empty()
    } else {
        let before = docs_of(writes.drop_last());
        match writes.last() {
            Op::Upsert { rowid, fields } => before.push((rowid, fields)),
            Op::Delete { rowid } => before,
        }
    }
}

/// The rowids that the writes delete.
pub open spec fn deletes_of(writes: Seq<Op>) -> Seq<i64>
    decreases writes.len(),
{
    if writes.len() == 0 {
        Seq::empty()
    } else {
        let before = deletes_of(writes.drop_last());
        match writes.last() {
            Op::Upsert { rowid, fields } => before,
            Op::Delete { rowid } => before.push(rowid),
        }
    }
}

/// The documents as contracts see them.
pub open spec fn shown(docs: Seq<(i64, Vec<String>)>) -> Seq<(i64, Seq<Seq<char>>)> {
    docs.map_values(|doc: (i64, Vec<String>)| (doc.0, text::texts(doc.1@)))
}

/// Parts documents from deletions.
pub fn split_operations(ordered: Vec<Operation>) -> (parts: (Vec<(i64, Vec<String>)>, Vec<i64>))
    ensures
        shown(parts.0@) == docs_of(ops(ordered@)),
        parts.1@ == deletes_of(ops(ordered@)),
        parts.0@.len() + parts.1@.len() == ordered@.len(),
{
    let ghost source = ordered@;
    let ghost writes = ops(ordered@);
    let mut docs: Vec<(i64, Vec<String>)> = Vec::new();
    let mut deletes: Vec<i64> = Vec::new();
    assert(writes.take(0) =~= Seq::empty());
    assert(shown(docs@) =~= Seq::empty());
    for operation in it: ordered
        invariant
            it.seq() == source,
            writes == ops(source),
            shown(docs@) == docs_of(writes.take(it.index() as int)),
            deletes@ == deletes_of(writes.take(it.index() as int)),
            docs@.len() + deletes@.len() == it.index(),
    {
        let ghost index = it.index() as int;
        let ghost old_docs = docs@;
        proof {
            assert(writes.take(index + 1).drop_last() =~= writes.take(index));
            assert(writes.take(index + 1).last() == operation@);
        }
        match operation {
            Operation::Upsert { rowid, fields } => {
                docs.push((rowid, fields));
                assert(shown(docs@) =~= shown(old_docs).push((rowid, text::texts(fields@))));
            },
            Operation::Delete { rowid } => {
                deletes.push(rowid);
            },
        }
    }
    assert(writes.take(source.len() as int) =~= writes);
    (docs, deletes)
}

/// What stands in the parts of distinct writes.
pub proof fn lemma_parts(writes: Seq<Op>)
    ensures
        docs_of(writes).len() <= writes.len(),
        forall|k: int|
            0 <= k < docs_of(writes).len() ==> exists|i: int|
                0 <= i < writes.len() && (#[trigger] writes[i]) == (Op::Upsert {
                    rowid: (#[trigger] docs_of(writes)[k]).0,
                    fields: docs_of(writes)[k].1,
                }),
        forall|i: int|
            0 <= i < writes.len() ==> match #[trigger] writes[i] {
                Op::Upsert { rowid, fields } => docs_of(writes).contains((rowid, fields)),
                Op::Delete { rowid } => deletes_of(writes).contains(rowid),
            },
        forall|k: int|
            0 <= k < deletes_of(writes).len() ==> exists|i: int|
                0 <= i < writes.len() && (#[trigger] writes[i]) == (Op::Delete {
                    rowid: #[trigger] deletes_of(writes)[k],
                }),
    decreases writes.len(),
{
    if writes.len() > 0 {
        let front = writes.drop_last();
        lemma_parts(front);
        let (docs, deletes) = (docs_of(writes), deletes_of(writes));
        let (docs2, deletes2) = (docs_of(front), deletes_of(front));
        assert(forall|i: int| 0 <= i < front.len() ==> front[i] == writes[i]);
        assert(writes[writes.len() - 1] == writes.last());
        assert forall|k: int| 0 <= k < docs.len() implies exists|i: int|
            0 <= i < writes.len() && (#[trigger] writes[i]) == (Op::Upsert {
                rowid: (#[trigger] docs[k]).0,
                fields: docs[k].1,
            }) by {
            if k < docs2.len() {
                assert(docs[k] == docs2[k]);
                let i = choose|i: int|
                    0 <= i < front.len() && (#[trigger] front[i]) == (Op::Upsert {
                        rowid: docs2[k].0,
                        fields: docs2[k].1,
                    });
                assert(writes[i] == front[i]);
            } else {
                assert(writes[writes.len() - 1] == (Op::Upsert {
                    rowid: docs[k].0,
                    fields: docs[k].1,
                }));
            }
        }
        assert forall|k: int| 0 <= k < deletes.len() implies exists|i: int|
            0 <= i < writes.len() && (#[trigger] writes[i]) == (Op::Delete {
                rowid: #[trigger] deletes[k],
            }) by {
            if k < deletes2.len() {
                assert(deletes[k] == deletes2[k]);
                let i = choose|i: int|
                    0 <= i < front.len() && (#[trigger] front[i]) == (Op::Delete {
                        rowid: deletes2[k],
                    });
                assert(writes[i] == front[i]);
            } else {
                assert(writes[writes.len() - 1] == (Op::Delete { rowid: deletes[k] }));
            }
        }
        assert forall|i: int| 0 <= i < writes.len() implies match #[trigger] writes[i] {
            Op::Upsert { rowid, fields } => docs.contains((rowid, fields)),
            Op::Delete { rowid } => deletes.contains(rowid),
        } by {
            if i < front.len() {
                match front[i] {
                    Op::Upsert { rowid, fields } => {
                        assert(docs2.contains((rowid, fields)));
                        let k = choose|k: int|
                            0 <= k < docs2.len() && docs2[k] == (rowid, fields);
                        assert(docs[k] == (rowid, fields));
                    },
                    Op::Delete { rowid } => {
                        assert(deletes2.contains(rowid));
                        let k = choose|k: int| 0 <= k < deletes2.len() && deletes2[k] == rowid;
                        assert(deletes[k] == rowid);
                    },
                }
            } else {
                match writes.last() {
                    Op::Upsert { rowid, fields } => {
                        assert(docs[docs2.len() as int] == (rowid, fields));
                    },
                    Op::Delete { rowid } => {
                        assert(deletes[deletes2.len() as int] == rowid);
                    },
                }
            }
        }
    }
}

/// Documents of different writes have different rowids.
pub proof fn lemma_docs_ascend(writes: Seq<Op>)
    requires
        forall|i: int, j: int|
            0 <= i < j < writes.len() ==> (#[trigger] writes[i]).rowid() < (
            #[trigger] writes[j]).rowid(),
    ensures
        forall|i: int, j: int|
            0 <= i < j < docs_of(writes).len() ==> (#[trigger] docs_of(writes)[i]).0 < (
            #[trigger] docs_of(writes)[j]).0,
    decreases writes.len(),
{
    if writes.len() > 0 {
        let front = writes.drop_last();
        assert(forall|i: int| 0 <= i < front.len() ==> front[i] == writes[i]);
        lemma_docs_ascend(front);
        lemma_parts(front);
        let (docs, docs2) = (docs_of(writes), docs_of(front));
        assert forall|i: int, j: int| 0 <= i < j < docs.len() implies (#[trigger] docs[i]).0 < (
        #[trigger] docs[j]).0 by {
            assert(docs[i] == docs2[i]);
            if j < docs2.len() {
                assert(docs[j] == docs2[j]);
            } else {
                let k = choose|k: int|
                    0 <= k < front.len() && (#[trigger] front[k]) == (Op::Upsert {
                        rowid: docs2[i].0,
                        fields: docs2[i].1,
                    });
                assert(writes[k].rowid() < writes[writes.len() - 1].rowid());
            }
        }
    }
}

/// The parts of canonical writes say of each rowid what the last write says.
pub proof fn lemma_split_content(
    canonical: Seq<Op>,
    writes: Seq<Op>,
    docs: Seq<(i64, Vec<String>)>,
    deletes: Seq<i64>,
    before: Option<Seq<Seq<char>>>,
    rowid: i64,
)
    requires
        is_canonical(canonical, writes),
        shown(docs) == docs_of(canonical),
        deletes == deletes_of(canonical),
    ensures
        snapshot::written_content(before, docs, deletes, rowid) == content_after(
            before,
            writes,
            rowid,
        ),
{
    lemma_parts(canonical);
    lemma_last_op_rowid(writes, rowid);
    let view = shown(docs);
    if snapshot::writes(docs, rowid) {
        let d = snapshot::written_index(docs, rowid);
        assert(docs[d].0 == rowid);
        assert(view[d] == (rowid, text::texts(docs[d].1@)));
        let i = choose|i: int|
            0 <= i < canonical.len() && (#[trigger] canonical[i]) == (Op::Upsert {
                rowid: docs_of(canonical)[d].0,
                fields: docs_of(canonical)[d].1,
            });
        assert(last_op(writes, canonical[i].rowid()) == Some(canonical[i]));
    } else if deletes.contains(rowid) {
        let d = choose|d: int| 0 <= d < deletes.len() && deletes[d] == rowid;
        let i = choose|i: int|
            0 <= i < canonical.len() && (#[trigger] canonical[i]) == (Op::Delete {
                rowid: deletes_of(canonical)[d],
            });
        assert(last_op(writes, canonical[i].rowid()) == Some(canonical[i]));
    } else if last_op(writes, rowid) is Some {
        let i = choose|i: int|
            0 <= i < canonical.len() && (#[trigger] canonical[i]).rowid() == rowid;
        assert(last_op(writes, canonical[i].rowid()) == Some(canonical[i]));
        match canonical[i] {
            Op::Upsert { rowid: written, fields } => {
                assert(docs_of(canonical).contains((written, fields)));
                let k = choose|k: int|
                    0 <= k < docs_of(canonical).len() && docs_of(canonical)[k] == (written, fields);
                assert(view[k].0 == rowid);
                assert(docs[k].0 == rowid);
            },
            Op::Delete { rowid: written } => {
                assert(deletes_of(canonical).contains(written));
            },
        }
    }
}

/// How many documents the writes write, where of several writes to a rowid the last
/// counts.
pub open spec fn document_count(writes: Seq<Op>) -> nat {
    docs_of(canonical_ops(writes)).len()
}

/// What applying writes does to a snapshot.
pub open spec fn applied(
    current: Snapshot,
    generation: u64,
    writes: Seq<Op>,
    next: Snapshot,
) -> bool {
    &&& next.wf()
    &&& next.generation == generation
    &&& forall|rowid: i64| #[trigger]
        next.content(rowid) == content_after(current.content(rowid), writes, rowid)
    &&& next.live_docs <= current.live_docs + document_count(writes)
    &&& next.total_doc_len <= current.total_doc_len + document_count(writes) * u32::MAX
    &&& current.ordered() && (forall|i: int|
        0 <= i < writes.len() ==> (#[trigger] writes[i]).valid()) ==> next.ordered()
    &&& current.faithful() ==> next.faithful()
    &&& current.well_fielded() && (forall|i: int|
        0 <= i < writes.len() ==> (#[trigger] writes[i]).valid()) ==> next.well_fielded()
}

/// The snapshot after the writes: of several writes to a rowid the last counts.
pub fn apply_operations(
    current: &Snapshot,
    generation: u64,
    operations: Vec<Operation>,
) -> (next: Snapshot)
    requires
        current.wf(),
        current.room(document_count(ops(operations@))),
    ensures
        applied(*current, generation, ops(operations@), next),
{
    let ghost writes = ops(operations@);
    let ordered = canonicalize_operations(operations);
    let ghost canonical = ops(ordered@);
    let (docs, deletes) = split_operations(ordered);
    assert(shown(docs@).len() == docs@.len());
    apply_parts(current, generation, docs, deletes, Ghost(canonical), Ghost(writes))
}

/// The snapshot after the writes, if the counters can take their documents.
pub fn try_apply_operations(
    current: &Snapshot,
    generation: u64,
    operations: Vec<Operation>,
) -> (result: Option<Snapshot>)
    requires
        current.wf(),
    ensures
        result is Some <==> current.room(document_count(ops(operations@))),
        result matches Some(next) ==> applied(*current, generation, ops(operations@), next),
{
    let ghost writes = ops(operations@);
    let ordered = canonicalize_operations(operations);
    let ghost canonical = ops(ordered@);
    let (docs, deletes) = split_operations(ordered);
    assert(shown(docs@).len() == docs@.len());
    if !current.has_room(docs.len()) {
        return None;
    }
    Some(apply_parts(current, generation, docs, deletes, Ghost(canonical), Ghost(writes)))
}

/// The snapshot after writes that have been put in order and divided.
fn apply_parts(
    current: &Snapshot,
    generation: u64,
    docs: Vec<(i64, Vec<String>)>,
    deletes: Vec<i64>,
    Ghost(canonical): Ghost<Seq<Op>>,
    Ghost(writes): Ghost<Seq<Op>>,
) -> (next: Snapshot)
    requires
        current.wf(),
        current.room(docs@.len()),
        is_canonical(canonical, writes),
        canonical == canonical_ops(writes),
        shown(docs@) == docs_of(canonical),
        deletes@ == deletes_of(canonical),
    ensures
        applied(*current, generation, writes, next),
{
    proof {
        lemma_parts(canonical);
        lemma_docs_ascend(canonical);
        assert(shown(docs@).len() == docs@.len());
        assert forall|i: int, j: int| 0 <= i < j < docs@.len() implies (#[trigger] docs@[i]).0 != (
        #[trigger] docs@[j]).0 by {
            assert(shown(docs@)[i].0 < shown(docs@)[j].0);
        }
    }
    let next = current.with_commit(generation, docs, deletes);
    proof {
        assert forall|rowid: i64| #[trigger]
            next.content(rowid) == content_after(current.content(rowid), writes, rowid) by {
            lemma_split_content(
                canonical,
                writes,
                docs@,
                deletes@,
                current.content(rowid),
                rowid,
            );
        }
        if forall|i: int| 0 <= i < writes.len() ==> (#[trigger] writes[i]).valid() {
            canonical_form_is_valid(canonical, writes);
            assert forall|d: int| 0 <= d < docs@.len() implies (#[trigger] docs@[d]).1@.len()
                <= 64 by {
                lemma_doc_valid(canonical, docs@, d);
            }
            if current.well_fielded() {
                assert forall|rowid: i64|
                    (#[trigger] next.content(rowid)) matches Some(fields) ==> 1 <= fields.len()
                        <= 64 by {
                    valid_writes_keep_fields(current.content(rowid), writes, rowid);
                }
            }
        }
    }
    next
}

/// There are no more documents than writes.
pub proof fn lemma_document_count(writes: Seq<Op>)
    ensures
        document_count(writes) <= writes.len(),
{
    lemma_canonical_len(writes);
    lemma_parts(canonical_ops(writes));
}

/// The canonical form is no longer than the writes.
proof fn lemma_canonical_len(writes: Seq<Op>)
    ensures
        canonical_ops(writes).len() <= writes.len(),
    decreases writes.len(),
{
    canonical_form_exists(writes);
    if writes.len() == 0 {
        assert(is_canonical(Seq::empty(), writes));
        canonical_form_is_unique(canonical_ops(writes), Seq::empty(), writes);
    } else {
        let front = writes.drop_last();
        lemma_canonical_len(front);
        canonical_form_exists(front);
        let before = canonical_ops(front);
        let last = writes.last();
        let place = lemma_place(before, last.rowid());
        let built = if place < before.len() && before[place].rowid() == last.rowid() {
            before.update(place, last)
        } else {
            before.insert(place, last)
        };
        lemma_built(before, front, last, place, built);
        assert(front.push(last) =~= writes);
        canonical_form_is_unique(canonical_ops(writes), built, writes);
    }
}

/// Every document that valid writes write has at most 64 fields.
pub proof fn lemma_doc_valid(writes: Seq<Op>, docs: Seq<(i64, Vec<String>)>, d: int)
    requires
        shown(docs) == docs_of(writes),
        0 <= d < docs.len(),
        forall|i: int| 0 <= i < writes.len() ==> (#[trigger] writes[i]).valid(),
    ensures
        1 <= docs[d].1@.len() <= 64,
{
    lemma_parts(writes);
    assert(shown(docs)[d] == (docs[d].0, text::texts(docs[d].1@)));
    let i = choose|i: int|
        0 <= i < writes.len() && (#[trigger] writes[i]) == (Op::Upsert {
            rowid: docs_of(writes)[d].0,
            fields: docs_of(writes)[d].1,
        });
    assert(writes[i].valid());
}

/// Writes in the order of their rowids are their own canonical form.
pub proof fn lemma_ascending_is_canonical(writes: Seq<Op>)
    requires
        forall|i: int, j: int|
            0 <= i < j < writes.len() ==> (#[trigger] writes[i]).rowid() < (
            #[trigger] writes[j]).rowid(),
    ensures
        is_canonical(writes, writes),
{
    assert forall|i: int| 0 <= i < writes.len() implies last_op(
        writes,
        (#[trigger] writes[i]).rowid(),
    ) == Some(writes[i]) by {
        lemma_last_op_exists(writes, i);
        lemma_last_op_rowid(writes, writes[i].rowid());
        lemma_last_op_is_write(writes, writes[i].rowid());
        let op = last_op(writes, writes[i].rowid())->0;
        let j = choose|j: int| 0 <= j < writes.len() && #[trigger] writes[j] == op;
        assert(j == i);
    }
    assert forall|rowid: i64| #[trigger] last_op(writes, rowid) is Some implies exists|i: int|
        0 <= i < writes.len() && (#[trigger] writes[i]).rowid() == rowid by {
        lemma_last_op_rowid(writes, rowid);
        lemma_last_op_is_write(writes, rowid);
        let op = last_op(writes, rowid)->0;
        let j = choose|j: int| 0 <= j < writes.len() && #[trigger] writes[j] == op;
        assert(writes[j].rowid() == rowid);
    }
}

/// Valid writes leave documents of one to 64 fields.
pub proof fn valid_writes_keep_fields(
    before: Option<Seq<Seq<char>>>,
    writes: Seq<Op>,
    rowid: i64,
)
    requires
        before matches Some(fields) ==> 1 <= fields.len() <= 64,
        forall|i: int| 0 <= i < writes.len() ==> (#[trigger] writes[i]).valid(),
    ensures
        content_after(before, writes, rowid) matches Some(fields) ==> 1 <= fields.len() <= 64,
{
    lemma_last_op_is_write(writes, rowid);
    if last_op(writes, rowid) is Some {
        let op = last_op(writes, rowid)->0;
        let j = choose|j: int| 0 <= j < writes.len() && #[trigger] writes[j] == op;
        assert(writes[j].valid());
    }
}

pub(crate) proof fn lemma_last_op_is_write(writes: Seq<Op>, rowid: i64)
    ensures
        last_op(writes, rowid) matches Some(op) ==> exists|j: int|
            0 <= j < writes.len() && #[trigger] writes[j] == op,
    decreases writes.len(),
{
    if writes.len() > 0 {
        assert(writes[writes.len() - 1] == writes.last());
        if writes.last().rowid() != rowid {
            let front = writes.drop_last();
            lemma_last_op_is_write(front, rowid);
            if last_op(front, rowid) is Some {
                let j = choose|j: int|
                    0 <= j < front.len() && #[trigger] front[j] == last_op(front, rowid)->0;
                assert(writes[j] == front[j]);
            }
        }
    }
}

} // verus!
