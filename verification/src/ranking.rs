//! The best documents of a search.
use vstd::prelude::*;

verus! {

/// A scored document. The score is given as the bits of a 32-bit floating-point
/// number.
#[derive(Clone, Copy, Debug, PartialEq, Eq, Structural)]
pub struct RankedDoc {
    pub segment: usize,
    pub docid: u32,
    pub rowid: i64,
    pub score: u32,
}

/// The place of a floating-point number, given by its bits, in the total order of
/// such numbers.
pub open spec fn score_key(bits: u32) -> int {
    if bits < 0x8000_0000 {
        bits as int
    } else {
        0x7fff_ffff - bits
    }
}

/// Whether `left` ranks before `right`: a higher score, then a lower rowid, then
/// an earlier place.
pub open spec fn ranks_before(left: RankedDoc, right: RankedDoc) -> bool {
    if left.score != right.score {
        score_key(left.score) > score_key(right.score)
    } else if left.rowid != right.rowid {
        left.rowid < right.rowid
    } else if left.segment != right.segment {
        left.segment < right.segment
    } else {
        left.docid < right.docid
    }
}

/// The documents stand in the order of their rank.
pub open spec fn ranked_order(ranked: Seq<RankedDoc>) -> bool {
    forall|i: int, j: int|
        0 <= i < j < ranked.len() ==> ranks_before(#[trigger] ranked[i], #[trigger] ranked[j])
}

/// The rank order is strict and total.
pub proof fn rank_laws(a: RankedDoc, b: RankedDoc, c: RankedDoc)
    ensures
        !ranks_before(a, a),
        ranks_before(a, b) && ranks_before(b, c) ==> ranks_before(a, c),
        a == b || ranks_before(a, b) || ranks_before(b, a),
        !(ranks_before(a, b) && ranks_before(b, a)),
{
}

/// Whether two entries stand for the same document.
pub open spec fn same_place(left: RankedDoc, right: RankedDoc) -> bool {
    left.segment == right.segment && left.docid == right.docid
}

fn key_of(bits: u32) -> (key: i64)
    ensures
        key == score_key(bits),
{
    if bits < 0x8000_0000 {
        bits as i64
    } else {
        0x7fff_ffff - bits as i64
    }
}

fn is_before(left: &RankedDoc, right: &RankedDoc) -> (result: bool)
    ensures
        result == ranks_before(*left, *right),
{
    if left.score != right.score {
        key_of(left.score) > key_of(right.score)
    } else if left.rowid != right.rowid {
        left.rowid < right.rowid
    } else if left.segment != right.segment {
        left.segment < right.segment
    } else {
        left.docid < right.docid
    }
}

/// The best `limit` of the documents pushed so far, best first.
#[derive(Debug)]
pub struct TopK {
    pub limit: usize,
    pub ranked: Vec<RankedDoc>,
}

impl TopK {
    pub open spec fn wf(self) -> bool {
        &&& 0 < self.limit
        &&& self.ranked@.len() <= self.limit
        &&& ranked_order(self.ranked@)
    }

    pub open spec fn full(self) -> bool {
        self.ranked@.len() == self.limit
    }

    /// Whether the document at this place is among the best.
    pub open spec fn holds(self, segment: int, docid: int) -> bool {
        exists|i: int|
            0 <= i < self.ranked@.len() && (#[trigger] self.ranked@[i]).segment == segment
                && self.ranked@[i].docid == docid
    }

    /// No document yet.
    pub fn new(limit: usize) -> (top: Self)
        requires
            limit > 0,
        ensures
            top.wf(),
            top.limit == limit,
            top.ranked@.len() == 0,
    {
        TopK { limit, ranked: Vec::new() }
    }

    pub fn is_full(&self) -> (result: bool)
        ensures
            result == self.full(),
    {
        self.ranked.len() == self.limit
    }

    /// The score that a document must reach to enter; zero while there is room.
    pub fn threshold(&self) -> (score: u32)
        requires
            self.wf(),
        ensures
            score == if self.full() {
                self.ranked@.last().score
            } else {
                0
            },
    {
        if self.ranked.len() == self.limit {
            self.ranked[self.ranked.len() - 1].score
        } else {
            0
        }
    }

    /// Enters a document, and lets the worst go where there are too many.
    pub fn push(&mut self, hit: RankedDoc)
        requires
            old(self).wf(),
            !old(self).holds(hit.segment as int, hit.docid as int),
        ensures
            final(self).wf(),
            final(self).limit == old(self).limit,
            old(self).full() ==> final(self).full(),
            !old(self).full() ==> final(self).ranked@.len() == old(self).ranked@.len() + 1,
            forall|entry: RankedDoc| #[trigger]
                final(self).ranked@.contains(entry) ==> old(self).ranked@.contains(entry) || entry
                    == hit,
            forall|entry: RankedDoc|
                #[trigger] old(self).ranked@.contains(entry) && !final(self).ranked@.contains(entry)
                    ==> final(self).full() && ranks_before(final(self).ranked@.last(), entry),
            !final(self).ranked@.contains(hit) ==> final(self).full() && ranks_before(
                final(self).ranked@.last(),
                hit,
            ),
            old(self).full() && ranks_before(old(self).ranked@.last(), hit)
                ==> final(self).ranked@ == old(self).ranked@,
    {
        let ghost before = self.ranked@;
        let count: usize = self.ranked.len();
        let mut index: usize = count;
        while index > 0
            invariant_except_break
                forall|i: int| index <= i < count ==> ranks_before(hit, #[trigger] before[i]),
            invariant
                index <= count,
                count == before.len(),
                self.ranked@ == before,
                ranked_order(before),
                !self.holds(hit.segment as int, hit.docid as int),
            ensures
                forall|i: int| index <= i < count ==> ranks_before(hit, #[trigger] before[i]),
                forall|i: int| 0 <= i < index ==> ranks_before(#[trigger] before[i], hit),
            decreases index,
        {
            if is_before(&self.ranked[index - 1], &hit) {
                assert forall|i: int| 0 <= i < index implies ranks_before(
                    #[trigger] before[i],
                    hit,
                ) by {
                    if i < index - 1 {
                        assert(ranks_before(before[i], before[index - 1]));
                        rank_laws(before[i], before[index - 1], hit);
                    }
                }
                break;
            }
            proof {
                rank_laws(before[index - 1], hit, hit);
                assert(before[index - 1].segment != hit.segment || before[index - 1].docid
                    != hit.docid);
            }
            index = index - 1;
        }
        if index == self.limit {
            assert(self.ranked@.last() == before[index - 1]);
            assert(before.contains(hit) || ranks_before(before[index - 1], hit));
            return;
        }
        proof {
            if count == self.limit {
                rank_laws(before[count - 1], hit, hit);
            }
        }
        let ghost whole = before.insert(index as int, hit);
        let dropped: bool = count == self.limit;
        if dropped {
            self.ranked.truncate(count - 1);
            assert(self.ranked@ =~= before.take(count - 1));
        }
        self.ranked.insert(index, hit);
        proof {
            assert(self.ranked@ =~= whole.take(self.ranked@.len() as int));
            assert forall|i: int, j: int| 0 <= i < j < whole.len() implies ranks_before(
                #[trigger] whole[i],
                #[trigger] whole[j],
            ) by {
                if j < index {
                    assert(whole[i] == before[i] && whole[j] == before[j]);
                } else if j == index {
                    assert(whole[i] == before[i]);
                } else if i < index {
                    assert(whole[i] == before[i] && whole[j] == before[j - 1]);
                } else if i == index {
                    assert(whole[j] == before[j - 1]);
                } else {
                    assert(whole[i] == before[i - 1] && whole[j] == before[j - 1]);
                }
            }
            assert forall|i: int, j: int| 0 <= i < j < self.ranked@.len() implies ranks_before(
                #[trigger] self.ranked@[i],
                #[trigger] self.ranked@[j],
            ) by {
                assert(self.ranked@[i] == whole[i] && self.ranked@[j] == whole[j]);
            }
            assert(self.ranked@[index as int] == hit);
            assert(self.ranked@.contains(hit));
            assert forall|entry: RankedDoc| #[trigger]
                self.ranked@.contains(entry) implies before.contains(entry) || entry == hit by {
                let i = choose|i: int| 0 <= i < self.ranked@.len() && self.ranked@[i] == entry;
                if i < index {
                    assert(before[i] == entry);
                } else if i > index {
                    assert(before[i - 1] == entry);
                }
            }
            assert forall|entry: RankedDoc| #[trigger] before.contains(entry)
                && !self.ranked@.contains(entry) implies self.full() && ranks_before(
                self.ranked@.last(),
                entry,
            ) by {
                let i = choose|i: int| 0 <= i < before.len() && before[i] == entry;
                let at = if i < index {
                    i
                } else {
                    i + 1
                };
                assert(whole[at] == entry);
                if at < self.ranked@.len() {
                    assert(self.ranked@[at] == entry);
                }
                assert(ranks_before(whole[self.ranked@.len() - 1], whole[at]));
            }
        }
    }

    /// The best documents, best first.
    pub fn into_sorted(self) -> (ranked: Vec<RankedDoc>)
        requires
            self.wf(),
        ensures
            ranked@ == self.ranked@,
            ranked_order(ranked@),
    {
        self.ranked
    }
}

} // verus!
