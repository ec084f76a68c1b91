//! Searching a segment in the order of its documents, past what bounds rule out.
use crate::answer::Frame;
use crate::cursor;
use crate::cursor::{restore_cursor_order, sort_cursors, WandCursor};
use crate::effort::{grown, joins_lists, stats_follow};
use crate::query::{Query, SearchStats};
use crate::ranking;
use crate::ranking::{RankedDoc, TopK};
use crate::scan::{
    cursor_ok, entries_before, fits, lemma_cursor, lemma_progress_stays, lemma_pruned,
    progress, walks,
};
use crate::scorer;
use crate::scorer::Scorer;
use crate::segment;
use crate::segment::Segment;
use crate::snapshot::Snapshot;
use crate::tally;
use vstd::prelude::*;

verus! {

/// The cursors walk lists of different terms, none is done, and they stand in
/// order.
spec fn walking<S: Scorer>(
    cursors: Seq<WandCursor<'_>>,
    scorer: &S,
    built: &Segment,
    names: Seq<Seq<char>>,
) -> bool {
    &&& forall|i: int|
        0 <= i < cursors.len() ==> cursor_ok(#[trigger] cursors[i], scorer, built, names)
    &&& cursor::distinct_ordinals(cursors)
    &&& cursor::all_active(cursors)
    &&& cursor::in_order(cursors)
}

/// The cursor of this term has not passed the document.
spec fn reaches_doc(cursors: Seq<WandCursor<'_>>, ordinal: int, docid: int) -> bool {
    exists|i: int|
        0 <= i < cursors.len() && (#[trigger] cursors[i]).ordinal == ordinal && !cursors[i].done()
            && cursors[i].doc() <= docid
}

/// No cursor of a term of the document has passed the document.
spec fn pending(frame: Frame, segment: int, cursors: Seq<WandCursor<'_>>, docid: int) -> bool {
    forall|k: int|
        0 <= k < frame.terms.len() && frame.snapshot.segments@[segment].holds(
            docid,
            #[trigger] frame.terms[k],
        ) ==> reaches_doc(cursors, k, docid)
}

/// A document that holds a term is pending, dominated, or passed and settled.
spec fn status(
    frame: Frame,
    ranked: Seq<RankedDoc>,
    limit: int,
    segment: int,
    cursors: Seq<WandCursor<'_>>,
    floor: int,
    docid: int,
) -> bool {
    frame.snapshot.in_range(segment, docid) && frame.holds_term(segment, docid) ==> pending(
        frame,
        segment,
        cursors,
        docid,
    ) || frame.dominated(ranked, limit, segment, docid) || (docid < floor && frame.settled(
        ranked,
        limit,
        segment,
        docid,
    ))
}

/// While there is room for entries, no document between the floor and the first
/// cursor holds a term.
proof fn lemma_none_before<S: Scorer>(
    frame: Frame,
    scorer: &S,
    top: TopK,
    segment: int,
    cursors: Seq<WandCursor<'_>>,
    floor: int,
    until: int,
)
    requires
        !top.full(),
        0 <= segment < frame.snapshot.segments@.len(),
        walking(cursors, scorer, &frame.snapshot.segments@[segment], frame.terms),
        forall|d: int| #[trigger]
            status(frame, top.ranked@, top.limit as int, segment, cursors, floor, d),
        0 <= floor,
        until <= frame.snapshot.segments@[segment].docs@.len(),
        cursors.len() > 0 ==> until <= cursors[0].doc(),
    ensures
        forall|d: int| floor <= d < until ==> !#[trigger] frame.holding_any(segment)(d),
{
    assert forall|d: int| floor <= d < until implies !#[trigger] frame.holding_any(segment)(d) by {
        if frame.holds_term(segment, d) {
            assert(frame.snapshot.in_range(segment, d));
            assert(status(frame, top.ranked@, top.limit as int, segment, cursors, floor, d));
            let k = choose|k: int|
                0 <= k < frame.terms.len() && frame.snapshot.segments@[segment].holds(
                    d,
                    #[trigger] frame.terms[k],
                );
            assert(reaches_doc(cursors, k, d));
            let i = choose|i: int|
                0 <= i < cursors.len() && (#[trigger] cursors[i]).ordinal == k
                    && !cursors[i].done() && cursors[i].doc() <= d;
            if i > 0 {
                assert(cursor::stands_before(cursors[0], cursors[i]));
            }
        }
    }
}

/// The bounds of the cursors' lists, in order.
spec fn bounds_of(cursors: Seq<WandCursor<'_>>) -> Seq<u32> {
    cursors.map_values(|walker: WandCursor<'_>| walker.list_bound)
}

/// Where the cursor of a term stands among the cursors.
spec fn place_of(cursors: Seq<WandCursor<'_>>, ordinal: int) -> int {
    choose|i: int| 0 <= i < cursors.len() && (#[trigger] cursors[i]).ordinal == ordinal
}

proof fn lemma_place(cursors: Seq<WandCursor<'_>>, i: int)
    requires
        cursor::distinct_ordinals(cursors),
        0 <= i < cursors.len(),
    ensures
        walks(cursors, cursors[i].ordinal as int),
        place_of(cursors, cursors[i].ordinal as int) == i,
{
    let j = place_of(cursors, cursors[i].ordinal as int);
    assert(cursors[i].ordinal == cursors[i].ordinal);
    assert(cursors[j].ordinal == cursors[i].ordinal);
}

/// How many postings the cursor of a term has left.
spec fn left_of(cursors: Seq<WandCursor<'_>>, ordinal: int) -> nat {
    if walks(cursors, ordinal) {
        let walker = cursors[place_of(cursors, ordinal)];
        if walker.done() {
            0
        } else {
            (walker.list.docids@.len() - walker.index) as nat
        }
    } else {
        0
    }
}

/// How many postings the cursors of the first `terms` terms have left.
spec fn left_over(cursors: Seq<WandCursor<'_>>, terms: nat) -> nat
    decreases terms,
{
    if terms == 0 {
        0
    } else {
        left_over(cursors, (terms - 1) as nat) + left_of(cursors, terms - 1)
    }
}

proof fn lemma_left_less(
    before: Seq<WandCursor<'_>>,
    after: Seq<WandCursor<'_>>,
    terms: nat,
    ordinal: int,
)
    requires
        forall|k: int|
            0 <= k < terms ==> #[trigger] left_of(after, k) <= left_of(before, k),
        0 <= ordinal < terms,
        left_of(after, ordinal) < left_of(before, ordinal),
    ensures
        left_over(after, terms) < left_over(before, terms),
    decreases terms,
{
    assert(left_of(after, terms - 1) <= left_of(before, terms - 1));
    if ordinal < terms - 1 {
        lemma_left_less(before, after, (terms - 1) as nat, ordinal);
    } else {
        lemma_left_no_more(before, after, (terms - 1) as nat);
    }
}

proof fn lemma_left_no_more(before: Seq<WandCursor<'_>>, after: Seq<WandCursor<'_>>, terms: nat)
    requires
        forall|k: int|
            0 <= k < terms ==> #[trigger] left_of(after, k) <= left_of(before, k),
    ensures
        left_over(after, terms) <= left_over(before, terms),
    decreases terms,
{
    if terms > 0 {
        assert(left_of(after, terms - 1) <= left_of(before, terms - 1));
        lemma_left_no_more(before, after, (terms - 1) as nat);
    }
}

/// The cursor is one of `before` at the same place or further on.
spec fn comes_from(before: Seq<WandCursor<'_>>, walker: WandCursor<'_>) -> bool {
    exists|i: int|
        0 <= i < before.len() && (#[trigger] before[i]).moved(walker.index) == walker
            && before[i].index <= walker.index
}

/// Each cursor of `after` is one of `before` at the same place or further on.
spec fn moved_on(before: Seq<WandCursor<'_>>, after: Seq<WandCursor<'_>>) -> bool {
    forall|j: int| 0 <= j < after.len() ==> comes_from(before, #[trigger] after[j])
}

proof fn lemma_moved_on(before: Seq<WandCursor<'_>>, after: Seq<WandCursor<'_>>, ordinal: int)
    requires
        cursor::distinct_ordinals(before),
        cursor::distinct_ordinals(after),
        moved_on(before, after),
    ensures
        left_of(after, ordinal) <= left_of(before, ordinal),
{
    if walks(after, ordinal) {
        let j = place_of(after, ordinal);
        assert(after[j].ordinal == ordinal);
        assert(comes_from(before, after[j]));
        let i = choose|i: int|
            0 <= i < before.len() && (#[trigger] before[i]).moved(after[j].index) == after[j]
                && before[i].index <= after[j].index;
        assert(before[i].ordinal == ordinal);
        lemma_place(before, i);
    }
}

/// A list that holds the document keeps it in reach of a cursor that has not
/// moved past it.
proof fn lemma_not_passed(walker: WandCursor<'_>, docid: int, index: usize)
    requires
        segment::increasing(walker.list.docids@),
        walker.list.has_doc(docid),
        index <= walker.list.index_of(docid),
    ensures
        !walker.moved(index).done(),
        walker.moved(index).doc() <= docid,
{
    let p = walker.list.index_of(docid);
    assert(walker.list.docids@[p] == docid);
    if index < p {
        assert(walker.list.docids@[index as int] < walker.list.docids@[p]);
    }
}

/// A document stays pending where the cursors of its terms stay in reach.
proof fn lemma_pending_kept<S: Scorer>(
    frame: Frame,
    scorer: &S,
    segment: int,
    before: Seq<WandCursor<'_>>,
    after: Seq<WandCursor<'_>>,
    docid: int,
)
    requires
        0 <= segment < frame.snapshot.segments@.len(),
        frame.snapshot.segments@[segment].wf(),
        walking(before, scorer, &frame.snapshot.segments@[segment], frame.terms),
        pending(frame, segment, before, docid),
        forall|i: int|
            0 <= i < before.len() && (#[trigger] before[i]).doc() <= docid
                && before[i].list.has_doc(docid) ==> reaches_doc(
                after,
                before[i].ordinal as int,
                docid,
            ),
    ensures
        pending(frame, segment, after, docid),
{
    let built = frame.snapshot.segments@[segment];
    assert forall|k: int|
        0 <= k < frame.terms.len() && built.holds(docid, #[trigger] frame.terms[k]) implies
        reaches_doc(after, k, docid) by {
        assert(reaches_doc(before, k, docid));
        let i = choose|i: int|
            0 <= i < before.len() && (#[trigger] before[i]).ordinal == k && !before[i].done()
                && before[i].doc() <= docid;
        lemma_cursor(before[i], scorer, &built, frame.terms);
    }
}

/// The bound of each cursor was given for the list that it walks.
proof fn lemma_bounds_given<S: Scorer>(
    cursors: Seq<WandCursor<'_>>,
    scorer: &S,
    built: &Segment,
    names: Seq<Seq<char>>,
)
    requires
        forall|i: int|
            0 <= i < cursors.len() ==> cursor_ok(#[trigger] cursors[i], scorer, built, names),
    ensures
        scorer::bounds_given(scorer, built, names, bounds_of(cursors)),
{
    let bounds = bounds_of(cursors);
    assert forall|i: int| 0 <= i < bounds.len() implies scorer::bounds_some_term(
        scorer,
        built,
        names,
        #[trigger] bounds[i],
    ) by {
        assert(cursor_ok(cursors[i], scorer, built, names));
        assert(scorer::bounds_term(scorer, built, names, cursors[i].ordinal, bounds[i]));
    }
}

/// The entries all stand before a pending document that holds a term.
proof fn lemma_entries_before(
    frame: Frame,
    ranked: Seq<RankedDoc>,
    segment: int,
    cursors: Seq<WandCursor<'_>>,
    floor: int,
    docid: int,
)
    requires
        entries_before(ranked, segment, floor),
        forall|i: int| 0 <= i < cursors.len() ==> (#[trigger] cursors[i]).doc() >= floor,
        frame.holds_term(segment, docid),
        pending(frame, segment, cursors, docid),
    ensures
        entries_before(ranked, segment, docid),
{
    let k = choose|k: int|
        0 <= k < frame.terms.len() && frame.snapshot.segments@[segment].holds(
            docid,
            #[trigger] frame.terms[k],
        );
    assert(reaches_doc(cursors, k, docid));
}

/// A pending document whose cursors are all among the first `count` is dominated
/// where the bounds of those do not reach the entries.
proof fn lemma_pruned_prefix<S: Scorer>(
    frame: Frame,
    scorer: &S,
    top: TopK,
    segment: int,
    cursors: Seq<WandCursor<'_>>,
    count: int,
    total: u64,
    docid: int,
)
    requires
        0 <= segment < frame.snapshot.segments@.len(),
        frame.snapshot.in_range(segment, docid),
        frame.snapshot.segments@[segment].wf(),
        walking(cursors, scorer, &frame.snapshot.segments@[segment], frame.terms),
        top.wf(),
        top.full(),
        frame.sound(top.ranked@, top.limit as int),
        entries_before(top.ranked@, segment, docid),
        frame.sure ==> scorer::admissible(scorer, frame.snapshot, frame.terms),
        frame.scored == scorer::scoring(scorer),
        0 <= count <= cursors.len(),
        scorer::joined(scorer, bounds_of(cursors.take(count)), total),
        call_ensures(S::reaches, (scorer, total, top.ranked@.last().score), false),
        pending(frame, segment, cursors, docid),
        forall|i: int| count <= i < cursors.len() ==> (#[trigger] cursors[i]).doc() > docid,
    ensures
        frame.dominated(top.ranked@, top.limit as int, segment, docid),
{
    let built = frame.snapshot.segments@[segment];
    let bounds = bounds_of(cursors.take(count));
    let via = |k: int| place_of(cursors, k);
    assert forall|k: int|
        0 <= k < frame.terms.len() && built.holds(docid, #[trigger] frame.terms[k]) implies 0
        <= via(k) < bounds.len() && scorer::bounds_part(
        scorer,
        built.part(frame.terms, docid, k),
        bounds[via(k)],
    ) && cursors[via(k)].ordinal == k by {
        assert(reaches_doc(cursors, k, docid));
        let i = choose|i: int|
            0 <= i < cursors.len() && (#[trigger] cursors[i]).ordinal == k && !cursors[i].done()
                && cursors[i].doc() <= docid;
        lemma_place(cursors, i);
        assert(i < count);
        assert(cursors.take(count)[i] == cursors[i]);
        assert(cursor_ok(cursors[i], scorer, &built, frame.terms));
        scorer::posting_within_list(&built, frame.terms, docid, k);
    }
    assert forall|j: int, k: int|
        0 <= j < k < frame.terms.len() && built.holds(docid, #[trigger] frame.terms[j])
            && built.holds(docid, #[trigger] frame.terms[k]) implies via(j) != via(k) by {
        assert(cursors[via(j)].ordinal == j && cursors[via(k)].ordinal == k);
    }
    lemma_bounds_given(cursors.take(count), scorer, &built, frame.terms);
    lemma_pruned(frame, scorer, top, segment, docid, bounds, total, via);
}

/// A pending document in the block of the first cursor is dominated where the
/// bound of the block and of the other lists together do not reach the entries.
proof fn lemma_pruned_block<S: Scorer>(
    frame: Frame,
    scorer: &S,
    top: TopK,
    segment: int,
    cursors: Seq<WandCursor<'_>>,
    block_bound: u32,
    total: u64,
    docid: int,
    at: int,
)
    requires
        0 <= segment < frame.snapshot.segments@.len(),
        frame.snapshot.segments@[segment].wf(),
        walking(cursors, scorer, &frame.snapshot.segments@[segment], frame.terms),
        cursors.len() > 0,
        top.wf(),
        top.full(),
        frame.sound(top.ranked@, top.limit as int),
        entries_before(top.ranked@, segment, docid),
        frame.sure ==> scorer::admissible(scorer, frame.snapshot, frame.terms),
        frame.scored == scorer::scoring(scorer),
        scorer::joined(scorer, bounds_of(cursors.skip(1)).push(block_bound), total),
        call_ensures(S::below, (scorer, total, top.ranked@.last().score), true),
        pending(frame, segment, cursors, docid),
        0 <= at < cursors[0].list.docids@.len(),
        cursors[0].list.docids@[at] == docid,
        at / 128 == cursors[0].index as int / 128,
        call_ensures(
            S::bound,
            (
                scorer,
                cursors[0].ordinal,
                cursors[0].list.max_tf,
                cursors[0].list.min_doc_len,
                cursors[0].list.blocks@[cursors[0].index as int / 128].max_tf,
                cursors[0].list.blocks@[cursors[0].index as int / 128].min_doc_len,
            ),
            block_bound,
        ),
    ensures
        frame.dominated(top.ranked@, top.limit as int, segment, docid),
{
    let built = frame.snapshot.segments@[segment];
    let others = bounds_of(cursors.skip(1));
    let bounds = others.push(block_bound);
    let via = |k: int|
        if place_of(cursors, k) == 0 {
            others.len() as int
        } else {
            place_of(cursors, k) - 1
        };
    assert forall|k: int|
        0 <= k < frame.terms.len() && built.holds(docid, #[trigger] frame.terms[k]) implies 0
        <= via(k) < bounds.len() && scorer::bounds_part(
        scorer,
        built.part(frame.terms, docid, k),
        bounds[via(k)],
    ) && 0 <= place_of(cursors, k) < cursors.len() && cursors[place_of(cursors, k)].ordinal == k by {
        assert(reaches_doc(cursors, k, docid));
        let i = choose|i: int|
            0 <= i < cursors.len() && (#[trigger] cursors[i]).ordinal == k && !cursors[i].done()
                && cursors[i].doc() <= docid;
        lemma_place(cursors, i);
        assert(cursor_ok(cursors[i], scorer, &built, frame.terms));
        scorer::posting_within_list(&built, frame.terms, docid, k);
        if i == 0 {
            scorer::posting_within_block(&built, frame.terms, docid, k, at);
            assert(bounds[via(k)] == block_bound);
        } else {
            assert(cursors.skip(1)[i - 1] == cursors[i]);
            assert(bounds[via(k)] == cursors[i].list_bound);
        }
    }
    assert forall|j: int, k: int|
        0 <= j < k < frame.terms.len() && built.holds(docid, #[trigger] frame.terms[j])
            && built.holds(docid, #[trigger] frame.terms[k]) implies via(j) != via(k) by {
        assert(cursors[place_of(cursors, j)].ordinal == j);
        assert(cursors[place_of(cursors, k)].ordinal == k);
    }
    lemma_bounds_given(cursors.skip(1), scorer, &built, frame.terms);
    assert(scorer::bounds_given(scorer, &built, frame.terms, bounds)) by {
        let first = cursors[0];
        assert(cursor_ok(first, scorer, &built, frame.terms));
        let block = first.index as int / 128;
        assert(0 <= block < first.list.blocks@.len());
        assert(scorer::bounds_list(scorer, *first.list, first.ordinal, block_bound));
        assert(scorer::bounds_term(scorer, &built, frame.terms, first.ordinal, block_bound));
        assert forall|i: int| 0 <= i < bounds.len() implies scorer::bounds_some_term(
            scorer,
            &built,
            frame.terms,
            #[trigger] bounds[i],
        ) by {
            if i < others.len() {
                assert(bounds[i] == others[i]);
            }
        }
    }
    lemma_pruned(frame, scorer, top, segment, docid, bounds, total, via);
}

/// Parts of all terms that the document holds are all its parts.
proof fn lemma_parts_complete(
    built: &Segment,
    terms: Seq<Seq<char>>,
    docid: int,
    parts: Seq<scorer::Part>,
)
    requires
        terms.len() <= usize::MAX,
        built.some_parts(terms, docid, parts),
        forall|k: int|
            0 <= k < terms.len() && built.holds(docid, #[trigger] terms[k]) ==> exists|i: int|
                0 <= i < parts.len() && (#[trigger] parts[i]).ordinal == k,
    ensures
        parts == built.parts(terms, docid),
    decreases terms.len(),
{
    if terms.len() == 0 {
        if parts.len() > 0 {
            assert(parts[0].ordinal < terms.len());
        }
        assert(parts =~= built.parts(terms, docid));
    } else {
        let front = terms.drop_last();
        let last = terms.len() - 1;
        assert(forall|k: int| 0 <= k < front.len() ==> front[k] == terms[k]);
        if built.holds(docid, terms[last]) {
            let i = choose|i: int| 0 <= i < parts.len() && (#[trigger] parts[i]).ordinal == last;
            if i < parts.len() - 1 {
                assert(parts[i].ordinal < parts[parts.len() - 1].ordinal);
                assert(parts[parts.len() - 1].ordinal < terms.len());
            }
            let shorter = parts.drop_last();
            assert(forall|j: int| 0 <= j < shorter.len() ==> shorter[j] == parts[j]);
            assert forall|j: int| 0 <= j < shorter.len() implies (
            #[trigger] shorter[j]).ordinal < last by {
                assert(parts[j].ordinal < parts[parts.len() - 1].ordinal);
            }
            assert(built.some_parts(front, docid, shorter)) by {
                assert forall|j: int| 0 <= j < shorter.len() implies {
                    let ordinal = (#[trigger] shorter[j]).ordinal as int;
                    &&& ordinal < front.len()
                    &&& built.holds(docid, front[ordinal])
                    &&& shorter[j] == built.part(front, docid, ordinal)
                } by {
                    assert(parts[j] == shorter[j]);
                }
                assert forall|j: int, k: int| 0 <= j < k < shorter.len() implies (
                #[trigger] shorter[j]).ordinal < (#[trigger] shorter[k]).ordinal by {
                    assert(parts[j].ordinal < parts[k].ordinal);
                }
            }
            assert forall|k: int|
                0 <= k < front.len() && built.holds(docid, #[trigger] front[k]) implies exists|
                j: int,
            |
                0 <= j < shorter.len() && (#[trigger] shorter[j]).ordinal == k by {
                assert(built.holds(docid, terms[k]));
                let j = choose|j: int| 0 <= j < parts.len() && (#[trigger] parts[j]).ordinal == k;
                assert(shorter[j].ordinal == k);
            }
            lemma_parts_complete(built, front, docid, shorter);
            assert(parts.last() == built.part(terms, docid, last));
            assert(parts =~= shorter.push(parts.last()));
        } else {
            assert(built.some_parts(front, docid, parts)) by {
                assert forall|j: int| 0 <= j < parts.len() implies {
                    let ordinal = (#[trigger] parts[j]).ordinal as int;
                    &&& ordinal < front.len()
                    &&& built.holds(docid, front[ordinal])
                    &&& parts[j] == built.part(front, docid, ordinal)
                } by {
                    assert(parts[j].ordinal != last);
                }
            }
            assert forall|k: int|
                0 <= k < front.len() && built.holds(docid, #[trigger] front[k]) implies exists|
                j: int,
            |
                0 <= j < parts.len() && (#[trigger] parts[j]).ordinal == k by {
                assert(built.holds(docid, terms[k]));
            }
            lemma_parts_complete(built, front, docid, parts);
        }
    }
}

impl Snapshot {
    /// Enters the document at which the first cursors stand, if it lives. Its score
    /// is taken from those cursors.
    fn consider_wand_candidate<S: Scorer>(
        &self,
        query: &Query,
        terms: &Vec<String>,
        segment_index: usize,
        docid: u32,
        cursors: &Vec<WandCursor<'_>>,
        scorer: &S,
        ranked: &mut TopK,
        stats: &mut SearchStats,
        Ghost(frame): Ghost<Frame>,
    )
        requires
            fits(frame, *self, *query, terms@, scorer),
            segment_index < self.segments@.len(),
            walking(cursors@, scorer, &self.segments@[segment_index as int], frame.terms),
            cursors@.len() > 0,
            cursors@[0].doc() == docid,
            self.live(segment_index as int, docid as int) ==> frame.candidate(
                segment_index as int,
                docid as int,
            ),
            progress(frame, *old(ranked), segment_index as int),
            entries_before(old(ranked).ranked@, segment_index as int, docid as int),
            pending(frame, segment_index as int, cursors@, docid as int) || frame.dominated(
                old(ranked).ranked@,
                old(ranked).limit as int,
                segment_index as int,
                docid as int,
            ),
            old(stats).scored_docs < old(stats).candidate_docs || old(stats).candidate_docs
                == usize::MAX,
            old(ranked).ranked@.len() <= old(stats).scored_docs,
            !old(ranked).full() ==> old(stats).scored_docs == old(ranked).ranked@.len(),
        ensures
            progress(frame, *final(ranked), segment_index as int),
            final(ranked).limit == old(ranked).limit,
            frame.advances(
                old(ranked).ranked@,
                final(ranked).ranked@,
                old(ranked).limit as int,
            ),
            frame.settled(
                final(ranked).ranked@,
                old(ranked).limit as int,
                segment_index as int,
                docid as int,
            ),
            entries_before(final(ranked).ranked@, segment_index as int, docid + 1),
            stats_follow(*old(stats), *final(stats), *final(ranked)),
            *final(stats) == (SearchStats {
                scored_docs: final(stats).scored_docs,
                ..*old(stats)
            }),
            old(ranked).full() ==> final(ranked).full(),
    {
        let ghost s = segment_index as int;
        let ghost names = frame.terms;
        let ghost limit = ranked.limit as int;
        let built = &self.segments[segment_index];
        proof {
            assert(built.wf());
            assert(!cursors@[0].done());
            lemma_cursor(cursors@[0], scorer, built, names);
        }
        if !self.is_live(segment_index, docid) {
            assert(frame.settled(ranked.ranked@, limit, s, docid as int));
            assert(frame.advances(ranked.ranked@, ranked.ranked@, limit));
            return;
        }
        stats.scored_docs = stats.scored_docs.saturating_add(1);
        let doc = &built.docs[docid as usize];
        let mut score: u32 = scorer.start();
        let mut index: usize = 0;
        let ghost mut parts: Seq<scorer::Part> = Seq::empty();
        while index < cursors.len() && cursors[index].docid() == docid
            invariant
                index <= cursors@.len(),
                walking(cursors@, scorer, built, names),
                built.wf(),
                names.len() <= usize::MAX,
                docid < built.docs@.len(),
                *doc == built.docs@[docid as int],
                forall|i: int| 0 <= i < index ==> (#[trigger] cursors@[i]).doc() == docid,
                parts.len() == index,
                forall|i: int|
                    0 <= i < index ==> #[trigger] parts[i] == built.part(
                        names,
                        docid as int,
                        cursors@[i].ordinal as int,
                    ),
                scorer::scored(scorer, parts, score),
            decreases cursors@.len() - index,
        {
            let walker = &cursors[index];
            proof {
                assert(!cursors@[index as int].done());
                lemma_cursor(cursors@[index as int], scorer, built, names);
            }
            let ghost earlier = score;
            score = scorer.add_term(
                score,
                walker.ordinal,
                walker.list.freqs[walker.index],
                doc.len,
            );
            proof {
                let part = built.part(names, docid as int, walker.ordinal as int);
                let longer = parts.push(part);
                assert(longer.drop_last() =~= parts);
                assert(longer.last() == part);
                assert(scorer::scored(scorer, longer, score));
                parts = longer;
            }
            index = index + 1;
        }
        let hit = RankedDoc { segment: segment_index, docid, rowid: doc.rowid, score };
        proof {
            assert(built.some_parts(names, docid as int, parts)) by {
                assert forall|i: int| 0 <= i < parts.len() implies {
                    let ordinal = (#[trigger] parts[i]).ordinal as int;
                    &&& ordinal < names.len()
                    &&& built.holds(docid as int, names[ordinal])
                    &&& parts[i] == built.part(names, docid as int, ordinal)
                } by {
                    assert(!cursors@[i].done());
                    assert(cursors@[i].doc() == docid);
                    lemma_cursor(cursors@[i], scorer, built, names);
                }
                assert forall|i: int, j: int| 0 <= i < j < parts.len() implies (
                #[trigger] parts[i]).ordinal < (#[trigger] parts[j]).ordinal by {
                    assert(cursor::stands_before(cursors@[i], cursors@[j]));
                    assert(cursors@[i].doc() == docid && cursors@[j].doc() == docid);
                }
            }
            if pending(frame, s, cursors@, docid as int) {
                assert forall|k: int|
                    0 <= k < names.len() && built.holds(docid as int, #[trigger] names[k]) implies
                    exists|i: int| 0 <= i < parts.len() && (#[trigger] parts[i]).ordinal == k by {
                    assert(reaches_doc(cursors@, k, docid as int));
                    let i = choose|i: int|
                        0 <= i < cursors@.len() && (#[trigger] cursors@[i]).ordinal == k
                            && !cursors@[i].done() && cursors@[i].doc() <= docid;
                    if i > 0 {
                        assert(cursor::stands_before(cursors@[0], cursors@[i]));
                    }
                    if i >= index {
                        assert(cursors@[index as int].doc() != docid);
                        if index > 0 {
                            assert(cursor::stands_before(cursors@[0], cursors@[index as int]));
                        }
                        if i > index {
                            assert(cursor::stands_before(cursors@[index as int], cursors@[i]));
                        }
                    }
                    assert(parts[i].ordinal == k);
                }
                lemma_parts_complete(built, names, docid as int, parts);
                assert(frame.has_score(s, docid as int, score));
            } else if frame.sure {
                assert((frame.scored)(parts, score));
                assert(ranking::score_key(score) < ranking::score_key(
                    ranked.ranked@.last().score,
                ));
                assert(ranking::ranks_before(ranked.ranked@.last(), hit));
            }
        }
        self.enter(hit, ranked, Ghost(frame), Ghost(s));
    }

    /// Searches one segment with cursors that skip what the bounds rule out.
    #[verifier::rlimit(30)]
    pub(crate) fn wand_segment<'a, S: Scorer>(
        &'a self,
        query: &Query,
        terms: &Vec<String>,
        segment_index: usize,
        cursors: Vec<WandCursor<'a>>,
        direct: bool,
        scorer: &S,
        ranked: &mut TopK,
        stats: &mut SearchStats,
        Ghost(frame): Ghost<Frame>,
    )
        requires
            fits(frame, *self, *query, terms@, scorer),
            !frame.all,
            !joins_lists(frame.query, frame.terms.len()),
            segment_index < self.segments@.len(),
            forall|i: int|
                0 <= i < cursors@.len() ==> cursor_ok(
                    #[trigger] cursors@[i],
                    scorer,
                    &self.segments@[segment_index as int],
                    frame.terms,
                ) && cursors@[i].index == 0,
            cursor::distinct_ordinals(cursors@),
            forall|k: int|
                0 <= k < frame.terms.len() && self.segments@[segment_index as int].terms.has(
                    #[trigger] frame.terms[k],
                ) ==> walks(cursors@, k),
            direct ==> forall|d: int|
                self.live(segment_index as int, d) && frame.holds_term(segment_index as int, d)
                    ==> #[trigger] frame.candidate(segment_index as int, d),
            progress(frame, *old(ranked), segment_index as int),
            entries_before(old(ranked).ranked@, segment_index as int, 0),
            stats_follow(*old(stats), *old(stats), *old(ranked)),
        ensures
            progress(frame, *final(ranked), segment_index + 1),
            entries_before(final(ranked).ranked@, segment_index + 1, 0),
            final(ranked).limit == old(ranked).limit,
            stats_follow(*old(stats), *final(stats), *final(ranked)),
            old(ranked).full() ==> final(ranked).full(),
            final(stats).candidate_docs <= old(stats).candidate_docs
                + self.segments@[segment_index as int].docs@.len(),
            !final(ranked).full() ==> final(stats).candidate_docs == grown(
                old(stats).candidate_docs,
                tally::segment_tally(
                    self.segments@[segment_index as int].docs@,
                    frame.holding_any(segment_index as int),
                    tally::one(),
                ),
            ),
            !final(ranked).full() ==> final(stats).posting_blocks == old(stats).posting_blocks
                && final(stats).skipped_blocks == old(stats).skipped_blocks,
            cursors@.len() == 0 ==> *final(stats) == *old(stats),
    {
        let ghost s = segment_index as int;
        let ghost limit = ranked.limit as int;
        let ghost names = frame.terms;
        let ghost first_stats = *stats;
        let ghost initial = cursors@;
        let built = &self.segments[segment_index];
        assert(built.wf());
        let mut cursors: Vec<WandCursor<'a>> = sort_cursors(cursors);
        let ghost mut floor: int = 0;
        proof {
            assert(built.docs@.take(0) =~= Seq::empty());
            if cursors@.len() > 0 {
                assert(cursors@.contains(cursors@[0]));
                assert(initial.contains(cursors@[0]));
            }
            assert forall|i: int| 0 <= i < cursors@.len() implies cursor_ok(
                #[trigger] cursors@[i],
                scorer,
                built,
                names,
            ) by {
                assert(cursors@.contains(cursors@[i]));
                let j = choose|j: int| 0 <= j < initial.len() && initial[j] == cursors@[i];
                assert(cursor_ok(initial[j], scorer, built, names));
            }
            assert forall|d: int| #[trigger]
                status(frame, ranked.ranked@, limit, s, cursors@, floor, d) by {
                assert forall|k: int|
                    0 <= k < names.len() && built.holds(d, #[trigger] names[k]) implies reaches_doc(
                    cursors@,
                    k,
                    d,
                ) by {
                    assert(built.terms.has(names[k]));
                    assert(walks(initial, k));
                    let j = choose|j: int|
                        0 <= j < initial.len() && (#[trigger] initial[j]).ordinal == k;
                    lemma_cursor(initial[j], scorer, built, names);
                    lemma_not_passed(initial[j], d, 0);
                    assert(initial[j].moved(0) == initial[j]);
                    assert(initial.contains(initial[j]));
                    assert(cursors@.contains(initial[j]));
                    let i = choose|i: int| 0 <= i < cursors@.len() && cursors@[i] == initial[j];
                    assert(cursors@[i].ordinal == k);
                }
            }
        }
        let mut finished: bool = false;
        while !finished && cursors.len() > 0
            invariant
                fits(frame, *self, *query, terms@, scorer),
                !frame.all,
                !joins_lists(frame.query, frame.terms.len()),
                s == segment_index < self.segments@.len(),
                *built == self.segments@[s],
                built.wf(),
                names == frame.terms,
                walking(cursors@, scorer, built, names),
                direct ==> forall|d: int|
                    self.live(s, d) && frame.holds_term(s, d) ==> #[trigger] frame.candidate(s, d),
                ranked.limit == limit,
                progress(frame, *ranked, s),
                entries_before(ranked.ranked@, s, floor),
                0 <= floor <= built.docs@.len(),
                forall|i: int| 0 <= i < cursors@.len() ==> (#[trigger] cursors@[i]).doc() >= floor,
                !finished ==> forall|d: int| #[trigger]
                    status(frame, ranked.ranked@, limit, s, cursors@, floor, d),
                finished ==> forall|d: int|
                    self.in_range(s, d) && frame.holds_term(s, d) ==> #[trigger] frame.settled(
                        ranked.ranked@,
                        limit,
                        s,
                        d,
                    ),
                stats_follow(first_stats, *stats, *ranked),
                old(ranked).full() ==> ranked.full(),
                stats.candidate_docs <= first_stats.candidate_docs + floor,
                finished ==> ranked.full(),
                initial.len() == 0 ==> cursors@.len() == 0 && *stats == first_stats,
                !ranked.full() ==> stats.candidate_docs == grown(
                    first_stats.candidate_docs,
                    tally::count_before(built.docs@, frame.holding_any(s), floor),
                ),
                !ranked.full() ==> stats.posting_blocks == first_stats.posting_blocks
                    && stats.skipped_blocks == first_stats.skipped_blocks,
            decreases
                    if finished {
                        0
                    } else {
                        1 + left_over(cursors@, names.len())
                    },
        {
            let ghost before = cursors@;
            let theta: u32 = ranked.threshold();
            proof {
                assert(!before[0].done());
                lemma_cursor(before[0], scorer, built, names);
            }
            let mut skipped: bool = false;
            if ranked.is_full() && (!direct || cursors.len() == 1) {
                stats.posting_blocks = stats.posting_blocks.saturating_add(1);
                skipped = self.first_block_below(&cursors, theta, scorer, Ghost(built), Ghost(names));
                if skipped {
                    proof {
                        assert(before[0].list.blocks@[before[0].index as int / 128]
                            == segment::block_meta(
                            before[0].list.docids@,
                            before[0].list.freqs@,
                            built.docs@,
                            before[0].index as int / 128,
                        ));
                        segment::increasing_bound(
                            before[0].list.docids@,
                            built.docs@.len() as int,
                        );
                    }
                    cursors[0].skip_block();
                    let ghost moved = cursors@;
                    proof {
                        assert(moved =~= before.update(0, moved[0]));
                        lemma_first_moved(before, moved);
                    }
                    restore_cursor_order(&mut cursors);
                    stats.skipped_blocks = stats.skipped_blocks.saturating_add(1);
                    proof {
                        lemma_restored(
                            scorer,
                            built,
                            names,
                            before,
                            moved,
                            cursors@,
                            floor,
                        );
                        assert forall|d: int| #[trigger]
                            status(frame, ranked.ranked@, limit, s, cursors@, floor, d) by {
                            assert(status(frame, ranked.ranked@, limit, s, before, floor, d));
                            if self.in_range(s, d) && frame.holds_term(s, d) && pending(
                                frame,
                                s,
                                before,
                                d,
                            ) {
                                lemma_entries_before(frame, ranked.ranked@, s, before, floor, d);
                                lemma_block_skipped(
                                    frame,
                                    scorer,
                                    *ranked,
                                    s,
                                    before,
                                    moved,
                                    cursors@,
                                    theta,
                                    d,
                                );
                            }
                        }
                    }
                }
            }
            if !skipped {
                let (found, pivot, total) = self.find_pivot(
                    &cursors,
                    ranked,
                    theta,
                    scorer,
                    Ghost(built),
                    Ghost(names),
                );
                if !found {
                    proof {
                        assert(before.take(before.len() as int) =~= before);
                        assert forall|d: int|
                            self.in_range(s, d) && frame.holds_term(
                                s,
                                d,
                            ) implies #[trigger] frame.settled(ranked.ranked@, limit, s, d) by {
                            assert(status(frame, ranked.ranked@, limit, s, before, floor, d));
                            if pending(frame, s, before, d) {
                                lemma_entries_before(frame, ranked.ranked@, s, before, floor, d);
                                lemma_pruned_prefix(
                                    frame,
                                    scorer,
                                    *ranked,
                                    s,
                                    before,
                                    before.len() as int,
                                    total,
                                    d,
                                );
                            }
                            if frame.dominated(ranked.ranked@, limit, s, d) {
                                frame.lemma_dominated_settled(ranked.ranked@, limit, s, d);
                            }
                        }
                    }
                    finished = true;
                } else {
                    assert(!before[pivot as int].done());
                    let pivot_doc: u32 = cursors[pivot].docid();
                    if cursors[0].docid() < pivot_doc {
                        let passed: usize = cursors[0].advance_to(pivot_doc);
                        let ghost moved = cursors@;
                        stats.skipped_blocks = stats.skipped_blocks.saturating_add(passed);
                        proof {
                            assert(moved =~= before.update(0, moved[0]));
                            assert(before[0].list.docids@[before[0].index as int] < pivot_doc);
                            assert(moved[0].index > before[0].index);
                            lemma_first_moved(before, moved);
                        }
                        restore_cursor_order(&mut cursors);
                        proof {
                            lemma_restored(
                                scorer,
                                built,
                                names,
                                before,
                                moved,
                                cursors@,
                                floor,
                            );
                            assert forall|d: int| #[trigger]
                                status(frame, ranked.ranked@, limit, s, cursors@, floor, d) by {
                                assert(status(frame, ranked.ranked@, limit, s, before, floor, d));
                                if self.in_range(s, d) && frame.holds_term(s, d) && pending(
                                    frame,
                                    s,
                                    before,
                                    d,
                                ) {
                                    lemma_entries_before(
                                        frame,
                                        ranked.ranked@,
                                        s,
                                        before,
                                        floor,
                                        d,
                                    );
                                    lemma_advanced(
                                        frame,
                                        scorer,
                                        *ranked,
                                        s,
                                        before,
                                        moved,
                                        cursors@,
                                        pivot as int,
                                        total,
                                        d,
                                    );
                                }
                            }
                        }
                    } else {
                        proof {
                            if pivot > 0 {
                                assert(cursor::stands_before(before[0], before[pivot as int]));
                            }
                            assert(before[0].doc() == pivot_doc);
                            assert(built.holds(
                                pivot_doc as int,
                                names[before[0].ordinal as int],
                            ));
                            assert(frame.holds_term(s, pivot_doc as int));
                            assert(self.in_range(s, pivot_doc as int));
                            assert(entries_before(ranked.ranked@, s, pivot_doc as int));
                        }
                        let ghost old_ranked = ranked.ranked@;
                        let ghost old_top = *ranked;
                        proof {
                            if !ranked.full() {
                                lemma_none_before(
                                    frame,
                                    scorer,
                                    *ranked,
                                    s,
                                    before,
                                    floor,
                                    pivot_doc as int,
                                );
                                tally::count_next(
                                    built.docs@,
                                    frame.holding_any(s),
                                    floor,
                                    pivot_doc as int,
                                );
                                assert(frame.holding_any(s)(pivot_doc as int));
                            }
                        }
                        stats.candidate_docs = stats.candidate_docs.saturating_add(1);
                        if direct {
                            assert(status(
                                frame,
                                ranked.ranked@,
                                limit,
                                s,
                                before,
                                floor,
                                pivot_doc as int,
                            ));
                            self.consider_wand_candidate(
                                query,
                                terms,
                                segment_index,
                                pivot_doc,
                                &cursors,
                                scorer,
                                ranked,
                                stats,
                                Ghost(frame),
                            );
                        } else {
                            self.consider(
                                query,
                                terms,
                                segment_index,
                                pivot_doc,
                                scorer,
                                ranked,
                                stats,
                                Ghost(frame),
                            );
                            proof {
                                lemma_progress_stays(frame, old_top, *ranked, s);
                            }
                        }
                        let mut matching_count: usize = 0;
                        while matching_count < cursors.len() && cursors[matching_count].docid()
                            == pivot_doc
                            invariant
                                matching_count <= cursors@.len(),
                                cursors@.len() == before.len(),
                                walking(before, scorer, built, names),
                                forall|i: int|
                                    0 <= i < matching_count ==> before[i].steps_to(
                                        #[trigger] cursors@[i],
                                    ) && before[i].doc() == pivot_doc,
                                forall|i: int|
                                    matching_count <= i < before.len() ==> #[trigger] cursors@[i]
                                        == before[i] && !before[i].done(),
                            decreases before.len() - matching_count,
                        {
                            let ghost current = cursors@;
                            assert(current[matching_count as int]
                                == before[matching_count as int]);
                            cursors[matching_count].step();
                            assert forall|i: int| 0 <= i < matching_count + 1 implies before[i].steps_to(
                                #[trigger] cursors@[i],
                            ) && before[i].doc() == pivot_doc by {
                                if i < matching_count {
                                    assert(cursors@[i] == current[i]);
                                }
                            }
                            matching_count = matching_count + 1;
                        }
                        let ghost stepped = cursors@;
                        proof {
                            lemma_stepped(
                                scorer,
                                built,
                                names,
                                before,
                                stepped,
                                pivot_doc,
                                matching_count as int,
                            );
                        }
                        cursors = sort_cursors(cursors);
                        proof {
                            lemma_resorted(
                                scorer,
                                built,
                                names,
                                before,
                                stepped,
                                cursors@,
                                pivot_doc,
                                matching_count as int,
                            );
                            assert forall|d: int| #[trigger]
                                status(
                                    frame,
                                    ranked.ranked@,
                                    limit,
                                    s,
                                    cursors@,
                                    pivot_doc + 1,
                                    d,
                                ) by {
                                assert(status(frame, old_ranked, limit, s, before, floor, d));
                                if d == pivot_doc {
                                } else if self.in_range(s, d) && frame.holds_term(s, d) {
                                    if pending(frame, s, before, d) {
                                        lemma_pending_stepped(
                                            frame,
                                            scorer,
                                            s,
                                            before,
                                            stepped,
                                            cursors@,
                                            pivot_doc,
                                            matching_count as int,
                                            d,
                                        );
                                    } else if frame.dominated(old_ranked, limit, s, d) {
                                        assert(frame.dominated(ranked.ranked@, limit, s, d));
                                    } else {
                                        assert(frame.settled(ranked.ranked@, limit, s, d));
                                    }
                                }
                            }
                            floor = pivot_doc + 1;
                        }
                    }
                }
            }
        }
        proof {
            if !ranked.full() {
                let end = built.docs@.len() as int;
                lemma_none_before(frame, scorer, *ranked, s, cursors@, floor, end);
                tally::count_gap(built.docs@, frame.holding_any(s), floor, end);
                assert(built.docs@.take(end) =~= built.docs@);
            }
            assert forall|s2: int, d: int|
                0 <= s2 < s + 1 && self.in_range(s2, d) implies #[trigger] frame.settled(
                ranked.ranked@,
                limit,
                s2,
                d,
            ) by {
                if s2 == s && frame.candidate(s, d) {
                    assert(frame.holds_term(s, d));
                    if !finished {
                        assert(status(frame, ranked.ranked@, limit, s, cursors@, floor, d));
                        let k = choose|k: int|
                            0 <= k < names.len() && built.holds(d, #[trigger] names[k]);
                        assert(!reaches_doc(cursors@, k, d));
                        if frame.dominated(ranked.ranked@, limit, s, d) {
                            frame.lemma_dominated_settled(ranked.ranked@, limit, s, d);
                        }
                    }
                }
            }
        }
    }

    /// Whether the bound of the first cursor's block, with the bounds of the other
    /// lists, lies below `theta`.
    fn first_block_below<S: Scorer>(
        &self,
        cursors: &Vec<WandCursor<'_>>,
        theta: u32,
        scorer: &S,
        Ghost(built): Ghost<&Segment>,
        Ghost(names): Ghost<Seq<Seq<char>>>,
    ) -> (result: bool)
        requires
            cursors@.len() > 0,
            built.wf(),
            walking(cursors@, scorer, built, names),
        ensures
            first_block_answer(scorer, cursors@, theta, result),
    {
        proof {
            assert(!cursors@[0].done());
            lemma_cursor(cursors@[0], scorer, built, names);
        }
        let first = &cursors[0];
        let block = &first.list.blocks[first.index / segment::POSTING_BLOCK_SIZE];
        let block_bound: u32 = scorer.bound(
            first.ordinal,
            first.list.max_tf,
            first.list.min_doc_len,
            block.max_tf,
            block.min_doc_len,
        );
        let ghost others = bounds_of(cursors@.skip(1));
        let mut total: u64 = 0;
        let mut index: usize = 1;
        assert(others.take(0) =~= Seq::empty());
        while index < cursors.len()
            invariant
                1 <= index <= cursors@.len(),
                others == bounds_of(cursors@.skip(1)),
                scorer::joined(scorer, others.take(index - 1), total),
            decreases cursors@.len() - index,
        {
            let ghost earlier = total;
            total = scorer.join(total, cursors[index].list_bound);
            proof {
                let longer = others.take(index as int);
                assert(longer.drop_last() =~= others.take(index - 1));
                assert(longer.last() == cursors@[index as int].list_bound);
                assert(scorer::joined(scorer, longer, total));
            }
            index = index + 1;
        }
        let whole: u64 = scorer.join(total, block_bound);
        proof {
            assert(others.take(index - 1) =~= others);
            let bounds = others.push(block_bound);
            assert(bounds.drop_last() =~= others);
            assert(bounds.last() == block_bound);
            assert(scorer::joined(scorer, bounds, whole));
        }
        let result: bool = scorer.below(whole, theta);
        assert(first_block_answer_by(scorer, cursors@, theta, result, block_bound, whole));
        result
    }

    /// The first cursor up to which the bounds together reach `theta`; while there
    /// is room, the first cursor.
    fn find_pivot<S: Scorer>(
        &self,
        cursors: &Vec<WandCursor<'_>>,
        ranked: &TopK,
        theta: u32,
        scorer: &S,
        Ghost(built): Ghost<&Segment>,
        Ghost(names): Ghost<Seq<Seq<char>>>,
    ) -> (result: (bool, usize, u64))
        requires
            cursors@.len() > 0,
        ensures
            result.1 <= cursors@.len(),
            result.0 ==> result.1 < cursors@.len(),
            !result.0 ==> result.1 == cursors@.len(),
            result.1 > 0 ==> ranked.full() && scorer::joined(
                scorer,
                bounds_of(cursors@.take(result.1 as int)),
                result.2,
            ) && call_ensures(S::reaches, (scorer, result.2, theta), false),
            result.0 && ranked.full() ==> pivot_reaches(scorer, cursors@, result.1 as int, theta),
    {
        let full: bool = ranked.is_full();
        let mut total: u64 = 0;
        let mut index: usize = 0;
        assert(bounds_of(cursors@.take(0)) =~= Seq::empty());
        while index < cursors.len()
            invariant
                index <= cursors@.len(),
                full == ranked.full(),
                scorer::joined(scorer, bounds_of(cursors@.take(index as int)), total),
                index > 0 ==> full && call_ensures(S::reaches, (scorer, total, theta), false),
            decreases cursors@.len() - index,
        {
            let next: u64 = scorer.join(total, cursors[index].list_bound);
            proof {
                let longer = bounds_of(cursors@.take(index + 1));
                assert(longer.drop_last() =~= bounds_of(cursors@.take(index as int)));
                assert(longer.last() == cursors@[index as int].list_bound);
                assert(scorer::joined(scorer, longer, next));
            }
            if !full || scorer.reaches(next, theta) {
                return (true, index, total);
            }
            total = next;
            index = index + 1;
        }
        (false, index, total)
    }
}

/// The scorer says of the bounds up to this cursor that together they reach `theta`.
spec fn pivot_reaches<S: Scorer>(
    scorer: &S,
    cursors: Seq<WandCursor<'_>>,
    pivot: int,
    theta: u32,
) -> bool {
    exists|total: u64| #[trigger]
        scorer::joined(scorer, bounds_of(cursors.take(pivot + 1)), total) && call_ensures(
            S::reaches,
            (scorer, total, theta),
            true,
        )
}

/// The bound of the first cursor's block is `block_bound`, and with the bounds of
/// the other lists it makes `total`, of which the scorer says whether it lies below
/// `theta`.
spec fn first_block_answer_by<S: Scorer>(
    scorer: &S,
    cursors: Seq<WandCursor<'_>>,
    theta: u32,
    below: bool,
    block_bound: u32,
    total: u64,
) -> bool {
    let first = cursors[0];
    let block = first.list.blocks@[first.index as int / 128];
    &&& call_ensures(
        S::bound,
        (
            scorer,
            first.ordinal,
            first.list.max_tf,
            first.list.min_doc_len,
            block.max_tf,
            block.min_doc_len,
        ),
        block_bound,
    )
    &&& scorer::joined(scorer, bounds_of(cursors.skip(1)).push(block_bound), total)
    &&& call_ensures(S::below, (scorer, total, theta), below)
}

/// What the scorer says of the first cursor's block: whether its bound, with the
/// bounds of the other lists, lies below `theta`.
spec fn first_block_answer<S: Scorer>(
    scorer: &S,
    cursors: Seq<WandCursor<'_>>,
    theta: u32,
    below: bool,
) -> bool {
    exists|block_bound: u32, total: u64|
        first_block_answer_by(scorer, cursors, theta, below, block_bound, total)
}

/// After the first cursor has moved, the others still stand in order.
proof fn lemma_first_moved(before: Seq<WandCursor<'_>>, moved: Seq<WandCursor<'_>>)
    requires
        before.len() > 0,
        cursor::distinct_ordinals(before),
        cursor::all_active(before),
        cursor::in_order(before),
        moved.len() == before.len(),
        forall|i: int| 0 < i < before.len() ==> #[trigger] moved[i] == before[i],
        moved[0].ordinal == before[0].ordinal,
    ensures
        cursor::distinct_ordinals(moved),
        cursor::all_active(moved.skip(1)),
        cursor::in_order(moved.skip(1)),
{
    let rest = moved.skip(1);
    assert forall|i: int| 0 <= i < rest.len() implies #[trigger] rest[i] == before[i + 1]
        && !rest[i].done() by {
        assert(moved[i + 1] == before[i + 1]);
    }
    assert forall|i: int, j: int| 0 <= i < j < moved.len() implies (#[trigger] moved[i]).ordinal
        != (#[trigger] moved[j]).ordinal by {
        assert(before[i].ordinal != before[j].ordinal);
        assert(moved[j] == before[j]);
        if i > 0 {
            assert(moved[i] == before[i]);
        }
    }
    assert forall|i: int, j: int| 0 <= i < j < rest.len() implies cursor::stands_before(
        #[trigger] rest[i],
        #[trigger] rest[j],
    ) by {
        assert(cursor::stands_before(before[i + 1], before[j + 1]));
    }
}

/// What restoring the order after a move of the first cursor leaves.
proof fn lemma_restored<S: Scorer>(
    scorer: &S,
    built: &Segment,
    names: Seq<Seq<char>>,
    before: Seq<WandCursor<'_>>,
    moved: Seq<WandCursor<'_>>,
    after: Seq<WandCursor<'_>>,
    floor: int,
)
    requires
        built.wf(),
        names.len() <= usize::MAX,
        before.len() > 0,
        walking(before, scorer, built, names),
        forall|i: int| 0 <= i < before.len() ==> (#[trigger] before[i]).doc() >= floor,
        moved.len() == before.len(),
        forall|i: int| 0 < i < before.len() ==> #[trigger] moved[i] == before[i],
        moved[0] == before[0].moved(moved[0].index),
        before[0].index < moved[0].index <= before[0].list.docids@.len(),
        cursor::distinct_ordinals(after),
        cursor::all_active(after),
        cursor::in_order(after),
        forall|c: WandCursor<'_>| #[trigger]
            after.contains(c) == (moved.contains(c) && !c.done()),
    ensures
        walking(after, scorer, built, names),
        forall|i: int| 0 <= i < after.len() ==> (#[trigger] after[i]).doc() >= floor,
        left_over(after, names.len()) < left_over(before, names.len()),
{
    lemma_cursor(before[0], scorer, built, names);
    assert forall|j: int| 0 <= j < after.len() implies cursor_ok(
        #[trigger] after[j],
        scorer,
        built,
        names,
    ) && after[j].doc() >= floor && comes_from(before, after[j]) by {
        assert(after.contains(after[j]));
        let i = choose|i: int| 0 <= i < moved.len() && moved[i] == after[j];
        assert(cursor_ok(before[i], scorer, built, names));
        if i == 0 {
            assert(!before[0].done());
            assert(before[0].list.docids@[before[0].index as int]
                < before[0].list.docids@[moved[0].index as int]);
        } else {
            assert(before[i].moved(before[i].index) == before[i]);
        }
        assert(before[i].moved(after[j].index) == after[j]);
    }
    assert(moved_on(before, after));
    assert forall|k: int| 0 <= k < names.len() implies #[trigger] left_of(after, k) <= left_of(
        before,
        k,
    ) by {
        lemma_moved_on(before, after, k);
    }
    let first = before[0].ordinal as int;
    lemma_place(before, 0);
    assert(!before[0].done());
    assert(left_of(after, first) < left_of(before, first)) by {
        if walks(after, first) {
            let j = place_of(after, first);
            assert(after[j].ordinal == first);
            assert(after.contains(after[j]));
            let i = choose|i: int| 0 <= i < moved.len() && moved[i] == after[j];
            if i > 0 {
                assert(before[0].ordinal != before[i].ordinal);
            }
        }
    }
    lemma_left_less(before, after, names.len(), first);
}

/// A pending document is pending still, or dominated, after a block is skipped.
proof fn lemma_block_skipped<S: Scorer>(
    frame: Frame,
    scorer: &S,
    top: TopK,
    segment: int,
    before: Seq<WandCursor<'_>>,
    moved: Seq<WandCursor<'_>>,
    after: Seq<WandCursor<'_>>,
    theta: u32,
    docid: int,
)
    requires
        0 <= segment < frame.snapshot.segments@.len(),
        frame.snapshot.segments@[segment].wf(),
        before.len() > 0,
        walking(before, scorer, &frame.snapshot.segments@[segment], frame.terms),
        top.wf(),
        top.full(),
        theta == top.ranked@.last().score,
        frame.sound(top.ranked@, top.limit as int),
        entries_before(top.ranked@, segment, docid),
        frame.sure ==> scorer::admissible(scorer, frame.snapshot, frame.terms),
        frame.scored == scorer::scoring(scorer),
        first_block_answer(scorer, before, theta, true),
        moved == before.update(0, moved[0]),
        moved[0] == before[0].moved(moved[0].index),
        moved[0].index == segment::block_end(
            before[0].index as int / 128,
            before[0].list.docids@.len(),
        ),
        forall|c: WandCursor<'_>| #[trigger]
            after.contains(c) == (moved.contains(c) && !c.done()),
        pending(frame, segment, before, docid),
    ensures
        pending(frame, segment, after, docid) || frame.dominated(
            top.ranked@,
            top.limit as int,
            segment,
            docid,
        ),
{
    let first = before[0];
    let list = first.list;
    lemma_cursor(first, scorer, &frame.snapshot.segments@[segment], frame.terms);
    if list.has_doc(docid) && first.index <= list.index_of(docid) < moved[0].index {
        let at = list.index_of(docid);
        assert(list.docids@[at] == docid);
        let (block_bound, total) = choose|block_bound: u32, total: u64|
            first_block_answer_by(scorer, before, theta, true, block_bound, total);
        lemma_pruned_block(
            frame,
            scorer,
            top,
            segment,
            before,
            block_bound,
            total,
            docid,
            at,
        );
    } else {
        assert forall|i: int|
            0 <= i < before.len() && (#[trigger] before[i]).doc() <= docid
                && before[i].list.has_doc(docid) implies reaches_doc(
            after,
            before[i].ordinal as int,
            docid,
        ) by {
            lemma_kept_in_reach(before, moved, after, i, docid);
        }
        lemma_pending_kept(frame, scorer, segment, before, after, docid);
    }
}

/// A cursor that did not pass the document is among those left.
proof fn lemma_kept_in_reach(
    before: Seq<WandCursor<'_>>,
    moved: Seq<WandCursor<'_>>,
    after: Seq<WandCursor<'_>>,
    i: int,
    docid: int,
)
    requires
        0 <= i < before.len(),
        moved.len() == before.len(),
        moved[i] == before[i].moved(moved[i].index),
        forall|c: WandCursor<'_>| #[trigger]
            after.contains(c) == (moved.contains(c) && !c.done()),
        segment::increasing(before[i].list.docids@),
        before[i].list.has_doc(docid),
        !before[i].done(),
        before[i].doc() <= docid,
        moved[i].index == before[i].index || moved[i].index <= before[i].list.index_of(docid),
    ensures
        reaches_doc(after, before[i].ordinal as int, docid),
{
    let walker = before[i];
    let p = walker.list.index_of(docid);
    assert(walker.list.docids@[p] == docid);
    if walker.index > p {
        assert(walker.list.docids@[p] < walker.list.docids@[walker.index as int]);
    }
    lemma_not_passed(walker, docid, moved[i].index);
    assert(moved.contains(moved[i]));
    assert(after.contains(moved[i]));
    let j = choose|j: int| 0 <= j < after.len() && after[j] == moved[i];
    assert(after[j].ordinal == walker.ordinal);
}

/// A pending document is pending still, or dominated, after the first cursor has
/// moved to the pivot.
proof fn lemma_advanced<S: Scorer>(
    frame: Frame,
    scorer: &S,
    top: TopK,
    segment: int,
    before: Seq<WandCursor<'_>>,
    moved: Seq<WandCursor<'_>>,
    after: Seq<WandCursor<'_>>,
    pivot: int,
    total: u64,
    docid: int,
)
    requires
        0 <= segment < frame.snapshot.segments@.len(),
        frame.snapshot.in_range(segment, docid),
        frame.snapshot.segments@[segment].wf(),
        0 < pivot < before.len(),
        walking(before, scorer, &frame.snapshot.segments@[segment], frame.terms),
        top.wf(),
        top.full(),
        frame.sound(top.ranked@, top.limit as int),
        entries_before(top.ranked@, segment, docid),
        frame.sure ==> scorer::admissible(scorer, frame.snapshot, frame.terms),
        frame.scored == scorer::scoring(scorer),
        scorer::joined(scorer, bounds_of(before.take(pivot)), total),
        call_ensures(S::reaches, (scorer, total, top.ranked@.last().score), false),
        moved == before.update(0, moved[0]),
        moved[0] == before[0].moved(moved[0].index),
        forall|i: int|
            before[0].index <= i < moved[0].index ==> #[trigger] before[0].list.docids@[i]
                < before[pivot].doc(),
        forall|c: WandCursor<'_>| #[trigger]
            after.contains(c) == (moved.contains(c) && !c.done()),
        pending(frame, segment, before, docid),
    ensures
        pending(frame, segment, after, docid) || frame.dominated(
            top.ranked@,
            top.limit as int,
            segment,
            docid,
        ),
{
    if docid < before[pivot].doc() {
        assert forall|i: int| pivot <= i < before.len() implies (#[trigger] before[i]).doc()
            > docid by {
            if i > pivot {
                assert(cursor::stands_before(before[pivot], before[i]));
            }
        }
        lemma_pruned_prefix(frame, scorer, top, segment, before, pivot, total, docid);
    } else {
        assert forall|i: int|
            0 <= i < before.len() && (#[trigger] before[i]).doc() <= docid
                && before[i].list.has_doc(docid) implies reaches_doc(
            after,
            before[i].ordinal as int,
            docid,
        ) by {
            lemma_cursor(
                before[i],
                scorer,
                &frame.snapshot.segments@[segment],
                frame.terms,
            );
            if i == 0 {
                let p = before[0].list.index_of(docid);
                assert(before[0].list.docids@[p] == docid);
                if p < before[0].index {
                    assert(!before[0].done());
                    assert(before[0].list.docids@[p]
                        < before[0].list.docids@[before[0].index as int]);
                }
            }
            lemma_kept_in_reach(before, moved, after, i, docid);
        }
        lemma_pending_kept(frame, scorer, segment, before, after, docid);
    }
}

/// The cursors at the pivot have stepped on; the others stand further on.
proof fn lemma_stepped<S: Scorer>(
    scorer: &S,
    built: &Segment,
    names: Seq<Seq<char>>,
    before: Seq<WandCursor<'_>>,
    stepped: Seq<WandCursor<'_>>,
    pivot_doc: u32,
    count: int,
)
    requires
        built.wf(),
        before.len() > 0,
        walking(before, scorer, built, names),
        before[0].doc() == pivot_doc,
        stepped.len() == before.len(),
        0 <= count <= before.len(),
        forall|i: int|
            0 <= i < count ==> before[i].steps_to(#[trigger] stepped[i]) && before[i].doc()
                == pivot_doc,
        forall|i: int| count <= i < before.len() ==> #[trigger] stepped[i] == before[i],
        count < before.len() ==> before[count].doc() != pivot_doc,
    ensures
        count > 0,
        cursor::distinct_ordinals(stepped),
        forall|i: int|
            0 <= i < stepped.len() ==> cursor_ok(#[trigger] stepped[i], scorer, built, names)
                && stepped[i] == before[i].moved(stepped[i].index) && before[i].index
                <= stepped[i].index && (!stepped[i].done() ==> stepped[i].doc() > pivot_doc),
{
    assert(count > 0) by {
        if count == 0 {
            assert(before[0].doc() != pivot_doc);
        }
    }
    assert forall|i: int, j: int| 0 <= i < j < stepped.len() implies (#[trigger] stepped[i]).ordinal
        != (#[trigger] stepped[j]).ordinal by {
        assert(before[i].ordinal != before[j].ordinal);
        assert(stepped[i].ordinal == before[i].ordinal);
        assert(stepped[j].ordinal == before[j].ordinal);
    }
    assert forall|i: int| 0 <= i < stepped.len() implies cursor_ok(
        #[trigger] stepped[i],
        scorer,
        built,
        names,
    ) && stepped[i] == before[i].moved(stepped[i].index) && before[i].index <= stepped[i].index && (
    !stepped[i].done() ==> stepped[i].doc() > pivot_doc) by {
        lemma_cursor(before[i], scorer, built, names);
        assert(!before[i].done());
        if i < count {
            if !stepped[i].done() {
                assert(before[i].list.docids@[before[i].index as int]
                    < before[i].list.docids@[before[i].index + 1]);
            }
        } else {
            assert(before[i].moved(before[i].index) == before[i]);
            assert(cursor::stands_before(before[0], before[count]));
            if i > count {
                assert(cursor::stands_before(before[count], before[i]));
            }
        }
    }
}

/// What sorting after a step leaves.
proof fn lemma_resorted<S: Scorer>(
    scorer: &S,
    built: &Segment,
    names: Seq<Seq<char>>,
    before: Seq<WandCursor<'_>>,
    stepped: Seq<WandCursor<'_>>,
    after: Seq<WandCursor<'_>>,
    pivot_doc: u32,
    count: int,
)
    requires
        built.wf(),
        names.len() <= usize::MAX,
        before.len() > 0,
        walking(before, scorer, built, names),
        stepped.len() == before.len(),
        0 < count <= before.len(),
        forall|i: int| 0 <= i < count ==> before[i].steps_to(#[trigger] stepped[i]),
        forall|i: int|
            0 <= i < stepped.len() ==> cursor_ok(#[trigger] stepped[i], scorer, built, names)
                && stepped[i] == before[i].moved(stepped[i].index) && before[i].index
                <= stepped[i].index && (!stepped[i].done() ==> stepped[i].doc() > pivot_doc),
        cursor::distinct_ordinals(after),
        cursor::all_active(after),
        cursor::in_order(after),
        forall|c: WandCursor<'_>| #[trigger]
            after.contains(c) == (stepped.contains(c) && !c.done()),
    ensures
        walking(after, scorer, built, names),
        forall|i: int| 0 <= i < after.len() ==> (#[trigger] after[i]).doc() >= pivot_doc + 1,
        left_over(after, names.len()) < left_over(before, names.len()),
{
    assert forall|j: int| 0 <= j < after.len() implies cursor_ok(
        #[trigger] after[j],
        scorer,
        built,
        names,
    ) && after[j].doc() >= pivot_doc + 1 && comes_from(before, after[j]) by {
        assert(after.contains(after[j]));
        let i = choose|i: int| 0 <= i < stepped.len() && stepped[i] == after[j];
        assert(cursor_ok(stepped[i], scorer, built, names));
        assert(before[i].moved(after[j].index) == after[j]);
    }
    assert(moved_on(before, after));
    assert forall|k: int| 0 <= k < names.len() implies #[trigger] left_of(after, k) <= left_of(
        before,
        k,
    ) by {
        lemma_moved_on(before, after, k);
    }
    let first = before[0].ordinal as int;
    lemma_place(before, 0);
    assert(!before[0].done());
    assert(cursor_ok(before[0], scorer, built, names));
    assert(left_of(after, first) < left_of(before, first)) by {
        if walks(after, first) {
            let j = place_of(after, first);
            assert(after[j].ordinal == first);
            assert(after.contains(after[j]));
            let i = choose|i: int| 0 <= i < stepped.len() && stepped[i] == after[j];
            if i > 0 {
                assert(before[0].ordinal != before[i].ordinal);
            }
            assert(before[0].steps_to(stepped[0]));
        }
    }
    lemma_left_less(before, after, names.len(), first);
}

/// A pending document other than the pivot is pending after the step.
proof fn lemma_pending_stepped<S: Scorer>(
    frame: Frame,
    scorer: &S,
    segment: int,
    before: Seq<WandCursor<'_>>,
    stepped: Seq<WandCursor<'_>>,
    after: Seq<WandCursor<'_>>,
    pivot_doc: u32,
    count: int,
    docid: int,
)
    requires
        0 <= segment < frame.snapshot.segments@.len(),
        frame.snapshot.segments@[segment].wf(),
        walking(before, scorer, &frame.snapshot.segments@[segment], frame.terms),
        stepped.len() == before.len(),
        0 <= count <= before.len(),
        forall|i: int|
            0 <= i < count ==> before[i].steps_to(#[trigger] stepped[i]) && before[i].doc()
                == pivot_doc,
        forall|i: int| count <= i < before.len() ==> #[trigger] stepped[i] == before[i],
        forall|c: WandCursor<'_>| #[trigger]
            after.contains(c) == (stepped.contains(c) && !c.done()),
        pending(frame, segment, before, docid),
        docid != pivot_doc,
    ensures
        pending(frame, segment, after, docid),
{
    assert forall|i: int|
        0 <= i < before.len() && (#[trigger] before[i]).doc() <= docid && before[i].list.has_doc(
            docid,
        ) implies reaches_doc(after, before[i].ordinal as int, docid) by {
        lemma_cursor(before[i], scorer, &frame.snapshot.segments@[segment], frame.terms);
        assert(!before[i].done());
        let p = before[i].list.index_of(docid);
        assert(before[i].list.docids@[p] == docid);
        if p < before[i].index {
            assert(before[i].list.docids@[p] < before[i].list.docids@[before[i].index as int]);
        }
        if i < count {
            assert(before[i].steps_to(stepped[i]));
        } else {
            assert(stepped[i] == before[i]);
            assert(before[i].moved(before[i].index) == before[i]);
        }
        lemma_kept_in_reach(before, stepped, after, i, docid);
    }
    lemma_pending_kept(frame, scorer, segment, before, after, docid);
}

} // verus!
