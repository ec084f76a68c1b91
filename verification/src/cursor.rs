//! Cursors that walk posting lists side by side.
use crate::segment;
use crate::segment::{PostingList, POSTING_BLOCK_SIZE};
use vstd::prelude::*;

verus! {

/// A place in the posting list of one term.
#[derive(Clone, Copy, Debug)]
pub struct WandCursor<'a> {
    pub list: &'a PostingList,
    pub index: usize,
    pub ordinal: usize,
    /// The bound on what the term adds to any document.
    pub list_bound: u32,
}

impl<'a> WandCursor<'a> {
    /// The cursor has passed the last posting.
    pub open spec fn done(self) -> bool {
        self.index >= self.list.docids@.len()
    }

    /// The document that the cursor stands at.
    pub open spec fn doc(self) -> int {
        self.list.docids@[self.index as int] as int
    }

    /// The same cursor at another place.
    pub open spec fn moved(self, index: usize) -> WandCursor<'a> {
        WandCursor { list: self.list, index, ordinal: self.ordinal, list_bound: self.list_bound }
    }

    pub fn exhausted(&self) -> (result: bool)
        ensures
            result == self.done(),
    {
        self.index >= self.list.docids.len()
    }

    pub fn docid(&self) -> (docid: u32)
        requires
            !self.done(),
        ensures
            docid == self.doc(),
    {
        self.list.docids[self.index]
    }

    /// `next` is the same cursor one posting further.
    pub open spec fn steps_to(self, next: WandCursor<'a>) -> bool {
        next.index == self.index + 1 && next == self.moved(next.index)
    }

    /// Moves to the next posting.
    pub fn step(&mut self)
        requires
            !old(self).done(),
        ensures
            old(self).steps_to(*final(self)),
    {
        let count: usize = self.list.docids.len();
        assert(self.index < count);
        self.index = self.index + 1;
    }

    /// Moves behind the block that the cursor stands in.
    pub fn skip_block(&mut self)
        requires
            !old(self).done(),
            old(self).list.blocks@.len() == segment::block_count(old(self).list.docids@.len()),
            old(self).list.blocks@[old(self).index as int / 128].end == segment::block_end(
                old(self).index as int / 128,
                old(self).list.docids@.len(),
            ),
        ensures
            *final(self) == old(self).moved(
                segment::block_end(
                    old(self).index as int / 128,
                    old(self).list.docids@.len(),
                ) as usize,
            ),
            final(self).index > old(self).index,
            final(self).index <= old(self).list.docids@.len(),
    {
        self.index = self.list.blocks[self.index / POSTING_BLOCK_SIZE].end as usize;
    }

    /// Moves to the first document from `target` on, and says how many blocks that
    /// passed.
    pub fn advance_to(&mut self, target: u32) -> (blocks: usize)
        requires
            segment::increasing(old(self).list.docids@),
            old(self).index <= old(self).list.docids@.len(),
        ensures
            *final(self) == old(self).moved(final(self).index),
            old(self).index <= final(self).index <= old(self).list.docids@.len(),
            forall|i: int|
                old(self).index <= i < final(self).index ==> #[trigger] old(self).list.docids@[i]
                    < target,
            forall|i: int|
                final(self).index <= i < old(self).list.docids@.len() ==> target <= #[trigger] old(
                    self,
                ).list.docids@[i],
            blocks == final(self).index / 128 - old(self).index / 128,
    {
        let start: usize = self.index;
        let list = self.list;
        let mut low: usize = start;
        let mut high: usize = list.docids.len();
        while low < high
            invariant
                start <= low <= high <= list.docids@.len(),
                segment::increasing(list.docids@),
                forall|i: int| start <= i < low ==> #[trigger] list.docids@[i] < target,
                forall|i: int|
                    high <= i < list.docids@.len() ==> target <= #[trigger] list.docids@[i],
            decreases high - low,
        {
            let middle: usize = low + (high - low) / 2;
            if list.docids[middle] < target {
                low = middle + 1;
            } else {
                high = middle;
            }
        }
        self.index = low;
        low / POSTING_BLOCK_SIZE - start / POSTING_BLOCK_SIZE
    }
}

/// Whether `left` stands before `right`: by document, then by ordinal.
pub open spec fn stands_before(left: WandCursor<'_>, right: WandCursor<'_>) -> bool {
    left.doc() < right.doc() || (left.doc() == right.doc() && left.ordinal < right.ordinal)
}

/// The cursors stand in order.
pub open spec fn in_order(cursors: Seq<WandCursor<'_>>) -> bool {
    forall|i: int, j: int|
        0 <= i < j < cursors.len() ==> stands_before(#[trigger] cursors[i], #[trigger] cursors[j])
}

/// No two cursors walk the list of the same term.
pub open spec fn distinct_ordinals(cursors: Seq<WandCursor<'_>>) -> bool {
    forall|i: int, j: int|
        0 <= i < j < cursors.len() ==> (#[trigger] cursors[i]).ordinal != (
        #[trigger] cursors[j]).ordinal
}

/// No cursor is done.
pub open spec fn all_active(cursors: Seq<WandCursor<'_>>) -> bool {
    forall|i: int| 0 <= i < cursors.len() ==> !(#[trigger] cursors[i]).done()
}

fn is_before(left: &WandCursor<'_>, right: &WandCursor<'_>) -> (result: bool)
    requires
        !left.done(),
        !right.done(),
    ensures
        result == stands_before(*left, *right),
{
    left.docid() < right.docid() || (left.docid() == right.docid() && left.ordinal < right.ordinal)
}

/// Puts the first cursor back into order after it has moved, or drops it if it is
/// done.
pub fn restore_cursor_order<'a>(cursors: &mut Vec<WandCursor<'a>>)
    requires
        old(cursors)@.len() > 0,
        distinct_ordinals(old(cursors)@),
        all_active(old(cursors)@.skip(1)),
        in_order(old(cursors)@.skip(1)),
    ensures
        distinct_ordinals(final(cursors)@),
        all_active(final(cursors)@),
        in_order(final(cursors)@),
        forall|c: WandCursor<'a>| #[trigger]
            final(cursors)@.contains(c) == (old(cursors)@.contains(c) && !c.done()),
{
    let ghost before = cursors@;
    let ghost rest = before.skip(1);
    let ghost first = before[0];
    proof {
        assert forall|c: WandCursor<'a>| #[trigger]
            before.contains(c) == (rest.contains(c) || c == first) by {
            if before.contains(c) {
                let i = choose|i: int| 0 <= i < before.len() && before[i] == c;
                if i > 0 {
                    assert(rest[i - 1] == c);
                }
            }
            if rest.contains(c) {
                let i = choose|i: int| 0 <= i < rest.len() && rest[i] == c;
                assert(before[i + 1] == c);
            }
        }
        assert forall|c: WandCursor<'a>| rest.contains(c) implies !(#[trigger] c.done()) by {
            let i = choose|i: int| 0 <= i < rest.len() && rest[i] == c;
            assert(!rest[i].done());
        }
        assert forall|i: int, j: int| 0 <= i < j < rest.len() implies (#[trigger] rest[i]).ordinal
            != (#[trigger] rest[j]).ordinal by {
            assert(before[i + 1].ordinal != before[j + 1].ordinal);
        }
    }
    if cursors[0].exhausted() {
        cursors.remove(0);
        assert(cursors@ =~= rest);
        return;
    }
    let mut index: usize = 0;
    assert(cursors@ =~= rest.insert(0, first));
    while index < cursors.len() - 1 && is_before(&cursors[index + 1], &cursors[index])
        invariant
            index <= rest.len(),
            cursors@.len() == rest.len() + 1,
            cursors@ == rest.insert(index as int, first),
            !first.done(),
            all_active(rest),
            in_order(rest),
            forall|i: int| 0 <= i < index ==> stands_before(#[trigger] rest[i], first),
        decreases rest.len() - index,
    {
        let moving: WandCursor<'a> = cursors[index];
        let other: WandCursor<'a> = cursors[index + 1];
        assert(other == rest[index as int]);
        cursors.set(index, other);
        cursors.set(index + 1, moving);
        assert(cursors@ =~= rest.insert(index + 1, first));
        index = index + 1;
    }
    proof {
        let after = cursors@;
        assert(forall|i: int| 0 <= i < index ==> after[i] == rest[i]);
        assert(forall|i: int| index < i < after.len() ==> after[i] == rest[i - 1]);
        assert forall|i: int| index <= i < rest.len() implies stands_before(
            first,
            #[trigger] rest[i],
        ) by {
            assert(after[index + 1] == rest[index as int]);
            assert(!stands_before(rest[index as int], first));
            assert(rest[index as int].ordinal != first.ordinal) by {
                assert(before[0].ordinal != before[index + 1].ordinal);
            }
            if i > index {
                assert(stands_before(rest[index as int], rest[i]));
            }
        }
        assert forall|i: int, j: int| 0 <= i < j < after.len() implies stands_before(
            #[trigger] after[i],
            #[trigger] after[j],
        ) && after[i].ordinal != after[j].ordinal by {
            if j < index {
                assert(stands_before(rest[i], rest[j]));
                assert(rest[i].ordinal != rest[j].ordinal);
            } else if j == index {
                assert(before[0].ordinal != before[i + 1].ordinal);
            } else if i < index {
                assert(stands_before(rest[i], rest[j - 1]));
                assert(rest[i].ordinal != rest[j - 1].ordinal);
            } else if i == index {
                assert(stands_before(first, rest[j - 1]));
                assert(before[0].ordinal != before[j].ordinal);
            } else {
                assert(stands_before(rest[i - 1], rest[j - 1]));
                assert(rest[i - 1].ordinal != rest[j - 1].ordinal);
            }
        }
        assert forall|c: WandCursor<'a>| #[trigger]
            after.contains(c) == (before.contains(c) && !c.done()) by {
            if after.contains(c) {
                let i = choose|i: int| 0 <= i < after.len() && after[i] == c;
                if i < index {
                    assert(rest[i] == c);
                } else if i > index {
                    assert(rest[i - 1] == c);
                }
            }
            if rest.contains(c) {
                let i = choose|i: int| 0 <= i < rest.len() && rest[i] == c;
                if i < index {
                    assert(after[i] == c);
                } else {
                    assert(after[i + 1] == c);
                }
            }
            if c == first {
                assert(after[index as int] == c);
            }
        }
        assert forall|i: int| 0 <= i < after.len() implies !(#[trigger] after[i]).done() by {
            assert(after.contains(after[i]));
        }
    }
}

/// The cursors that are not done, in order.
pub fn sort_cursors<'a>(cursors: Vec<WandCursor<'a>>) -> (sorted: Vec<WandCursor<'a>>)
    requires
        distinct_ordinals(cursors@),
    ensures
        distinct_ordinals(sorted@),
        all_active(sorted@),
        in_order(sorted@),
        forall|c: WandCursor<'a>| #[trigger]
            sorted@.contains(c) == (cursors@.contains(c) && !c.done()),
{
    let mut sorted: Vec<WandCursor<'a>> = Vec::with_capacity(cursors.len());
    let mut done: usize = 0;
    while done < cursors.len()
        invariant
            done <= cursors@.len(),
            distinct_ordinals(cursors@),
            distinct_ordinals(sorted@),
            all_active(sorted@),
            in_order(sorted@),
            forall|c: WandCursor<'a>| #[trigger]
                sorted@.contains(c) == (cursors@.take(done as int).contains(c) && !c.done()),
        decreases cursors@.len() - done,
    {
        let next: WandCursor<'a> = cursors[done];
        let ghost (fewer, more) = (cursors@.take(done as int), cursors@.take(done + 1));
        proof {
            assert forall|c: WandCursor<'a>| #[trigger]
                more.contains(c) == (fewer.contains(c) || c == next) by {
                if more.contains(c) {
                    let i = choose|i: int| 0 <= i < more.len() && more[i] == c;
                    if i < done {
                        assert(fewer[i] == c);
                    }
                }
                if fewer.contains(c) {
                    let i = choose|i: int| 0 <= i < fewer.len() && fewer[i] == c;
                    assert(more[i] == c);
                }
                assert(more[done as int] == next);
            }
        }
        if !next.exhausted() {
            let ghost before = sorted@;
            proof {
                assert forall|i: int| 0 <= i < before.len() implies (#[trigger] before[i]).ordinal
                    != next.ordinal by {
                    assert(before.contains(before[i]));
                    let k = choose|k: int| 0 <= k < fewer.len() && fewer[k] == before[i];
                    assert(cursors@[k].ordinal != cursors@[done as int].ordinal);
                }
            }
            let mut index: usize = sorted.len();
            while index > 0 && is_before(&next, &sorted[index - 1])
                invariant
                    index <= sorted@.len(),
                    sorted@ == before,
                    !next.done(),
                    all_active(before),
                    in_order(before),
                    forall|i: int| index <= i < before.len() ==> stands_before(
                        next,
                        #[trigger] before[i],
                    ),
                decreases index,
            {
                index = index - 1;
            }
            sorted.insert(index, next);
            proof {
                let after = sorted@;
                assert(forall|i: int| 0 <= i < index ==> after[i] == before[i]);
                assert(forall|i: int| index < i < after.len() ==> after[i] == before[i - 1]);
                assert forall|i: int| 0 <= i < index implies stands_before(
                    #[trigger] before[i],
                    next,
                ) by {
                    assert(!stands_before(next, before[index - 1]));
                    assert(before[index - 1].ordinal != next.ordinal);
                    if i < index - 1 {
                        assert(stands_before(before[i], before[index - 1]));
                    }
                }
                assert forall|i: int, j: int| 0 <= i < j < after.len() implies stands_before(
                    #[trigger] after[i],
                    #[trigger] after[j],
                ) && after[i].ordinal != after[j].ordinal by {
                    if j < index {
                        assert(stands_before(before[i], before[j]));
                        assert(before[i].ordinal != before[j].ordinal);
                    } else if j == index {
                        assert(before[i].ordinal != next.ordinal);
                    } else if i < index {
                        assert(stands_before(before[i], before[j - 1]));
                        assert(before[i].ordinal != before[j - 1].ordinal);
                    } else if i == index {
                        assert(stands_before(next, before[j - 1]));
                        assert(before[j - 1].ordinal != next.ordinal);
                    } else {
                        assert(stands_before(before[i - 1], before[j - 1]));
                        assert(before[i - 1].ordinal != before[j - 1].ordinal);
                    }
                }
                assert forall|c: WandCursor<'a>| #[trigger]
                    after.contains(c) == (more.contains(c) && !c.done()) by {
                    assert(before.contains(c) == (fewer.contains(c) && !c.done()));
                    if after.contains(c) {
                        let i = choose|i: int| 0 <= i < after.len() && after[i] == c;
                        if i < index {
                            assert(before[i] == c);
                        } else if i > index {
                            assert(before[i - 1] == c);
                        }
                    }
                    if before.contains(c) {
                        let i = choose|i: int| 0 <= i < before.len() && before[i] == c;
                        if i < index {
                            assert(after[i] == c);
                        } else {
                            assert(after[i + 1] == c);
                        }
                    }
                    assert(after[index as int] == next);
                }
                assert forall|i: int| 0 <= i < after.len() implies !(
                #[trigger] after[i]).done() by {
                    assert(after.contains(after[i]));
                }
            }
        }
        done = done + 1;
    }
    assert(cursors@.take(done as int) =~= cursors@);
    sorted
}

} // verus!
