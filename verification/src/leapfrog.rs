//! How far cursors jump when lists are walked together.
//!
//! Each cursor in turn is moved to the goal; one that lands behind the goal sets a
//! new one. When all have met at a document, each moves on by one posting. The walk
//! ends with the first list.
use crate::packing;
use crate::segment::Segment;
use std::sync::Arc;
use vstd::prelude::*;

verus! {

/// The first place from `place` on whose document is not before `goal`.
pub open spec fn landing(docids: Seq<u32>, place: int, goal: int) -> int
    decreases docids.len() - place,
{
    if place >= docids.len() || docids[place] >= goal {
        place
    } else {
        landing(docids, place + 1, goal)
    }
}

/// A list has ended.
pub open spec fn ended(lists: Seq<Seq<u32>>, places: Seq<int>) -> bool {
    exists|k: int| 0 <= k < lists.len() && #[trigger] places[k] >= lists[k].len()
}

/// The documents at the places.
pub open spec fn heads(lists: Seq<Seq<u32>>, places: Seq<int>) -> Seq<u32> {
    Seq::new(lists.len(), |k: int| lists[k][places[k]])
}

/// Every place moved on by one.
pub open spec fn stepped(places: Seq<int>) -> Seq<int> {
    places.map_values(|place: int| place + 1)
}

/// How many blocks a move within a list jumps over.
pub open spec fn passed(place: int, landed: int) -> nat {
    (landed / 128 - place / 128) as nat
}

/// How many blocks are jumped over from here on: list `k` is next to be moved to
/// `goal`, and the goal was `first` when the turn began.
#[verifier::opaque]
pub open spec fn jumps(
    lists: Seq<Seq<u32>>,
    places: Seq<int>,
    docs: int,
    first: int,
    goal: int,
    k: int,
) -> nat
    decreases docs - first, lists.len() - k,
{
    if k < 0 || first >= docs {
        0
    } else if k >= lists.len() {
        let (from, next) = if goal > first {
            (places, goal)
        } else if ended(lists, stepped(places)) {
            (places, first)
        } else {
            (stepped(places), packing::largest(heads(lists, stepped(places))) as int)
        };
        if first < next < docs {
            jumps(lists, from, docs, next, next, 0)
        } else {
            0
        }
    } else {
        let landed = landing(lists[k], places[k], goal);
        if landed >= lists[k].len() {
            passed(places[k], landed)
        } else {
            let next = if lists[k][landed] > goal {
                lists[k][landed] as int
            } else {
                goal
            };
            passed(places[k], landed) + jumps(
                lists,
                places.update(k, landed),
                docs,
                first,
                next,
                k + 1,
            )
        }
    }
}

/// How many blocks are jumped over from these places on.
pub open spec fn jumps_from(lists: Seq<Seq<u32>>, places: Seq<int>, docs: int) -> nat {
    if ended(lists, places) {
        0
    } else {
        let goal = packing::largest(heads(lists, places)) as int;
        jumps(lists, places, docs, goal, goal, 0)
    }
}

/// The segment's documents for each term.
pub open spec fn term_lists(segment: &Segment, terms: Seq<Seq<char>>) -> Seq<Seq<u32>> {
    Seq::new(
        terms.len(),
        |k: int|
            match segment.terms.lookup(terms[k]) {
                Some(list) => list.docids@,
                None => Seq::empty(),
            },
    )
}

/// How many blocks are jumped over in one segment.
pub open spec fn segment_jumps(segment: &Segment, terms: Seq<Seq<char>>) -> nat {
    jumps_from(
        term_lists(segment, terms),
        Seq::new(terms.len(), |k: int| 0),
        segment.docs@.len() as int,
    )
}

/// How many blocks are jumped over in all segments.
pub open spec fn all_jumps(segments: Seq<Arc<Segment>>, terms: Seq<Seq<char>>) -> nat
    decreases segments.len(),
{
    if segments.len() == 0 {
        0
    } else {
        all_jumps(segments.drop_last(), terms) + segment_jumps(&segments.last(), terms)
    }
}

/// A place with everything before it before the goal, and nothing from it on, is
/// the landing.
pub proof fn lemma_landing(docids: Seq<u32>, place: int, goal: int, landed: int)
    requires
        0 <= place <= landed <= docids.len(),
        forall|i: int| place <= i < landed ==> #[trigger] docids[i] < goal,
        landed < docids.len() ==> docids[landed] >= goal,
    ensures
        landing(docids, place, goal) == landed,
    decreases docids.len() - place,
{
    if place < landed {
        assert(docids[place] < goal);
        lemma_landing(docids, place + 1, goal, landed);
    }
}

/// One list is moved to the goal.
pub proof fn lemma_move(
    lists: Seq<Seq<u32>>,
    places: Seq<int>,
    docs: int,
    first: int,
    goal: int,
    k: int,
    landed: int,
)
    requires
        0 <= k < lists.len(),
        first < docs,
        0 <= places[k] <= landed <= lists[k].len(),
        forall|i: int| places[k] <= i < landed ==> #[trigger] lists[k][i] < goal,
        landed < lists[k].len() ==> lists[k][landed] >= goal,
    ensures
        jumps(lists, places, docs, first, goal, k) == passed(places[k], landed) + if landed
            >= lists[k].len() {
            0
        } else {
            jumps(lists, places.update(k, landed), docs, first, lists[k][landed] as int, k + 1)
        },
{
    reveal(jumps);
    lemma_landing(lists[k], places[k], goal, landed);
}

/// A turn in which the goal changed is followed by another.
pub proof fn lemma_turn_again(
    lists: Seq<Seq<u32>>,
    places: Seq<int>,
    docs: int,
    first: int,
    goal: int,
)
    requires
        0 <= first < goal < docs,
    ensures
        jumps(lists, places, docs, first, goal, lists.len() as int) == jumps(
            lists,
            places,
            docs,
            goal,
            goal,
            0,
        ),
{
    reveal(jumps);
}

pub(crate) proof fn lemma_largest_stands(values: Seq<u32>)
    requires
        values.len() > 0,
    ensures
        values.contains(packing::largest(values)),
    decreases values.len(),
{
    let front = values.drop_last();
    assert(values[values.len() - 1] == values.last());
    if front.len() > 0 {
        lemma_largest_stands(front);
        let i = choose|i: int| 0 <= i < front.len() && front[i] == packing::largest(front);
        assert(values[i] == front[i]);
    }
}

/// The largest head is the one that no other exceeds.
pub proof fn lemma_farthest(lists: Seq<Seq<u32>>, places: Seq<int>, goal: u32, at: int)
    requires
        0 <= at < lists.len(),
        lists[at][places[at]] == goal,
        forall|k: int| 0 <= k < lists.len() ==> lists[k][#[trigger] places[k]] <= goal,
    ensures
        packing::largest(heads(lists, places)) == goal,
{
    let all = heads(lists, places);
    packing::largest_bounds(all);
    assert(all[at] == goal);
    lemma_largest_stands(all);
    let k = choose|k: int| 0 <= k < all.len() && all[k] == packing::largest(all);
    assert(lists[k][places[k]] <= goal);
}

} // verus!
