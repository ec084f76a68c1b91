//! Searching a segment for the documents that hold all terms.
use crate::answer::Frame;
use crate::cursor;
use crate::cursor::WandCursor;
use crate::effort::{grown, stats_follow};
use crate::leapfrog;
use crate::matching;
use crate::matching::phrase_runs;
use crate::packing;
use crate::query::{Query, SearchStats};
use crate::ranking::{RankedDoc, TopK};
use crate::scan::{
    cursor_ok, entries_before, fits, lemma_add_part, lemma_cursor, progress,
};
use crate::scorer;
use crate::scorer::Scorer;
use crate::segment;
use crate::segment::Segment;
use crate::snapshot::Snapshot;
use crate::tally;
use vstd::prelude::*;

verus! {

/// Whether no cursor is done.
fn none_exhausted(cursors: &Vec<WandCursor<'_>>) -> (result: bool)
    ensures
        result == cursor::all_active(cursors@),
{
    let mut done: usize = 0;
    while done < cursors.len()
        invariant
            done <= cursors@.len(),
            forall|i: int| 0 <= i < done ==> !(#[trigger] cursors@[i]).done(),
        decreases cursors@.len() - done,
    {
        if cursors[done].exhausted() {
            assert(cursors@[done as int].done());
            return false;
        }
        done = done + 1;
    }
    true
}

/// The last of the documents that the cursors stand at.
fn max_docid(cursors: &Vec<WandCursor<'_>>) -> (docid: u32)
    requires
        cursors@.len() > 0,
        cursor::all_active(cursors@),
    ensures
        exists|i: int| 0 <= i < cursors@.len() && (#[trigger] cursors@[i]).doc() == docid,
        forall|i: int| 0 <= i < cursors@.len() ==> (#[trigger] cursors@[i]).doc() <= docid,
{
    assert(!cursors@[0].done());
    let mut max: u32 = cursors[0].docid();
    let mut done: usize = 1;
    assert(cursors@[0].doc() == max);
    while done < cursors.len()
        invariant
            1 <= done <= cursors@.len(),
            cursor::all_active(cursors@),
            exists|i: int| 0 <= i < cursors@.len() && (#[trigger] cursors@[i]).doc() == max,
            forall|i: int| 0 <= i < done ==> (#[trigger] cursors@[i]).doc() <= max,
        decreases cursors@.len() - done,
    {
        assert(!cursors@[done as int].done());
        if cursors[done].docid() > max {
            max = cursors[done].docid();
            assert(cursors@[done as int].doc() == max);
        }
        done = done + 1;
    }
    max
}

/// Whether the terms of a phrase stand one right after the other in the document
/// at which all the cursors stand.
fn cursor_phrase_matches(
    cursors: &Vec<WandCursor<'_>>,
    phrase_order: &Vec<usize>,
    Ghost(at): Ghost<spec_fn(Seq<char>) -> Seq<u32>>,
    Ghost(phrase): Ghost<Seq<Seq<char>>>,
) -> (result: bool)
    requires
        phrase_order@.len() > 0,
        phrase.len() == phrase_order@.len(),
        forall|i: int|
            0 <= i < phrase.len() ==> {
                let ordinal = #[trigger] phrase_order@[i] as int;
                &&& ordinal < cursors@.len()
                &&& cursors@[ordinal].index < cursors@[ordinal].list.positions@.len()
                &&& cursors@[ordinal].list.ordered()
                &&& cursors@[ordinal].list.positions@[cursors@[ordinal].index as int]@ == at(
                    phrase[i],
                )
            },
    ensures
        result == matching::phrase_matches(at, phrase, None),
{
    let lead = &cursors[phrase_order[0]];
    let first = &lead.list.positions[lead.index];
    let mut rest: Vec<&Vec<u32>> = Vec::new();
    let mut done: usize = 1;
    while done < phrase_order.len()
        invariant
            1 <= done <= phrase_order@.len(),
            phrase.len() == phrase_order@.len(),
            forall|i: int|
                0 <= i < phrase.len() ==> {
                    let ordinal = #[trigger] phrase_order@[i] as int;
                    &&& ordinal < cursors@.len()
                    &&& cursors@[ordinal].index < cursors@[ordinal].list.positions@.len()
                    &&& cursors@[ordinal].list.ordered()
                    &&& cursors@[ordinal].list.positions@[cursors@[ordinal].index as int]@ == at(
                        phrase[i],
                    )
                },
            rest@.len() == done - 1,
            forall|k: int|
                0 <= k < rest@.len() ==> segment::ascending((#[trigger] rest@[k])@) && rest@[k]@
                    == at(phrase[k + 1]),
        decreases phrase_order@.len() - done,
    {
        let walker = &cursors[phrase_order[done]];
        rest.push(&walker.list.positions[walker.index]);
        done = done + 1;
    }
    let found: bool = phrase_runs(first, &rest, None);
    proof {
        assert(first@ == at(phrase[0])) by {
            let ordinal = phrase_order@[0] as int;
        }
        assert forall|start: u32| matching::phrase_follows(at, phrase, start)
            == matching::runs_after(rest@, start) by {
            if matching::runs_after(rest@, start) {
                assert forall|k: int| 1 <= k < phrase.len() implies matching::step_holds(
                    at(#[trigger] phrase[k]),
                    start,
                    k,
                ) by {
                    assert(matching::step_holds(rest@[k - 1]@, start, k));
                }
            }
            if matching::phrase_follows(at, phrase, start) {
                assert forall|k: int| 0 <= k < rest@.len() implies matching::step_holds(
                    (#[trigger] rest@[k])@,
                    start,
                    k + 1,
                ) by {
                    assert(matching::step_holds(at(phrase[k + 1]), start, k + 1));
                }
            }
        }
        if found {
            let i = choose|i: int|
                0 <= i < first@.len() && matching::in_column((#[trigger] first@[i]) as int, None)
                    && matching::runs_after(rest@, first@[i]);
            assert(matching::in_column(at(phrase[0])[i] as int, None));
            assert(matching::phrase_follows(at, phrase, at(phrase[0])[i]));
        } else if matching::phrase_matches(at, phrase, None) {
            let i = choose|i: int|
                0 <= i < at(phrase[0]).len() && matching::in_column(
                    (#[trigger] at(phrase[0])[i]) as int,
                    None,
                ) && matching::phrase_follows(at, phrase, at(phrase[0])[i]);
            assert(matching::in_column(first@[i] as int, None));
            assert(matching::runs_after(rest@, first@[i]));
        }
    }
    found
}

/// No cursor has passed the document.
spec fn ahead(cursors: Seq<WandCursor<'_>>, docid: int) -> bool {
    forall|i: int|
        0 <= i < cursors.len() ==> !(#[trigger] cursors[i]).done() && cursors[i].doc() <= docid
}

/// There is one well-formed cursor for each term, in order.
pub open spec fn full_set<S: Scorer>(
    cursors: Seq<WandCursor<'_>>,
    scorer: &S,
    built: &Segment,
    names: Seq<Seq<char>>,
) -> bool {
    &&& cursors.len() == names.len()
    &&& forall|i: int|
        0 <= i < cursors.len() ==> cursor_ok(#[trigger] cursors[i], scorer, built, names)
            && cursors[i].ordinal == i
}

/// Documents that hold every term are either ahead of the cursors or met and settled.
spec fn met_or_ahead(
    frame: Frame,
    ranked: Seq<RankedDoc>,
    limit: int,
    segment: int,
    cursors: Seq<WandCursor<'_>>,
    floor: int,
) -> bool {
    forall|d: int|
        frame.snapshot.in_range(segment, d) && frame.holds_all(segment, d) ==> #[trigger] ahead(
            cursors,
            d,
        ) || d < floor && frame.settled(ranked, limit, segment, d)
}

/// Moving a cursor to a target that no document ahead falls short of passes none
/// of them.
proof fn lemma_advance_keeps<S: Scorer>(
    frame: Frame,
    scorer: &S,
    segment: int,
    before: Seq<WandCursor<'_>>,
    after: Seq<WandCursor<'_>>,
    k: int,
    target: u32,
    docid: int,
)
    requires
        0 <= segment < frame.snapshot.segments@.len(),
        frame.snapshot.segments@[segment].wf(),
        full_set(before, scorer, &frame.snapshot.segments@[segment], frame.terms),
        0 <= k < before.len(),
        after == before.update(k, after[k]),
        after[k] == before[k].moved(after[k].index),
        before[k].index <= after[k].index <= before[k].list.docids@.len(),
        forall|i: int|
            before[k].index <= i < after[k].index ==> #[trigger] before[k].list.docids@[i] < target,
        frame.holds_all(segment, docid),
        ahead(before, docid),
        target <= docid,
    ensures
        ahead(after, docid),
{
    let built = frame.snapshot.segments@[segment];
    let walker = before[k];
    lemma_cursor(walker, scorer, &built, frame.terms);
    assert(built.holds(docid, frame.terms[k]));
    assert(walker.list.has_doc(docid));
    let p = walker.list.index_of(docid);
    assert(walker.list.docids@[p] == docid);
    assert(!walker.done() && walker.doc() <= docid);
    if p < walker.index {
        assert(walker.list.docids@[p] < walker.list.docids@[walker.index as int]);
    }
    assert(after[k].index <= p);
    assert forall|i: int| 0 <= i < after.len() implies !(#[trigger] after[i]).done()
        && after[i].doc() <= docid by {
        if i == k {
            if after[k].index < p {
                assert(walker.list.docids@[after[k].index as int] < walker.list.docids@[p]);
            }
        } else {
            assert(after[i] == before[i]);
            assert(!before[i].done());
        }
    }
}

impl Snapshot {
    /// Searches one segment for the documents that hold every term, and as a
    /// phrase where one is asked for.
    pub(crate) fn intersect_segment<'a, S: Scorer>(
        &'a self,
        query: &Query,
        terms: &Vec<String>,
        segment_index: usize,
        mut cursors: Vec<WandCursor<'a>>,
        phrase_order: &Option<Vec<usize>>,
        scorer: &S,
        ranked: &mut TopK,
        stats: &mut SearchStats,
        Ghost(frame): Ghost<Frame>,
        Ghost(phrase): Ghost<Seq<Seq<char>>>,
    )
        requires
            fits(frame, *self, *query, terms@, scorer),
            !frame.all,
            terms@.len() > 0,
            segment_index < self.segments@.len(),
            full_set(cursors@, scorer, &self.segments@[segment_index as int], frame.terms),
            forall|i: int| 0 <= i < cursors@.len() ==> (#[trigger] cursors@[i]).index == 0,
            phrase_order matches Some(order) ==> order@.len() > 0 && order@.len() == phrase.len()
                && forall|i: int|
                0 <= i < phrase.len() ==> (#[trigger] order@[i]) < frame.terms.len()
                    && frame.terms[order@[i] as int] == phrase[i],
            forall|d: int| #[trigger]
                frame.candidate(segment_index as int, d) == (self.live(segment_index as int, d)
                    && frame.holds_all(segment_index as int, d) && (phrase_order is Some
                    ==> matching::phrase_matches(
                    self.segments@[segment_index as int].document(d),
                    phrase,
                    None,
                ))),
            progress(frame, *old(ranked), segment_index as int),
            entries_before(old(ranked).ranked@, segment_index as int, 0),
            stats_follow(*old(stats), *old(stats), *old(ranked)),
        ensures
            progress(frame, *final(ranked), segment_index + 1),
            entries_before(final(ranked).ranked@, segment_index + 1, 0),
            final(ranked).limit == old(ranked).limit,
            stats_follow(*old(stats), *final(stats), *final(ranked)),
            old(ranked).full() ==> final(ranked).full(),
            final(stats).candidate_docs <= old(stats).candidate_docs
                + self.segments@[segment_index as int].docs@.len(),
            final(stats).candidate_docs == grown(
                old(stats).candidate_docs,
                tally::segment_tally(
                    self.segments@[segment_index as int].docs@,
                    frame.holding_all(segment_index as int),
                    tally::one(),
                ),
            ),
            final(stats).scored_docs == grown(
                old(stats).scored_docs,
                tally::segment_tally(
                    self.segments@[segment_index as int].docs@,
                    frame.found_in(segment_index as int),
                    tally::one(),
                ),
            ),
            final(stats).posting_blocks == old(stats).posting_blocks,
            final(stats).skipped_blocks == grown(
                old(stats).skipped_blocks,
                leapfrog::segment_jumps(&self.segments@[segment_index as int], frame.terms),
            ),
    {
        let ghost s = segment_index as int;
        let ghost limit = ranked.limit as int;
        let ghost names = frame.terms;
        let ghost first_stats = *stats;
        let built = &self.segments[segment_index];
        let count: usize = cursors.len();
        let ghost mut floor: int = 0;
        let ghost docs = built.docs@;
        let ghost met = frame.holding_all(s);
        let ghost found = frame.found_in(s);
        let ghost lists = leapfrog::term_lists(built, names);
        let ghost end = docs.len() as int;
        let ghost whole = leapfrog::segment_jumps(built, names);
        let ghost mut jumped: nat = 0;
        proof {
            assert(places_of(cursors@) =~= Seq::new(names.len(), |k: int| 0));
            assert(built.wf());
            assert(docs.take(0) =~= Seq::empty());
            assert(built.ordered());
            assert forall|d: int| self.in_range(s, d) && frame.holds_all(s, d) implies #[trigger] ahead(
                cursors@,
                d,
            ) by {
                lemma_start_ahead(frame, scorer, s, cursors@, d);
            }
        }
        while none_exhausted(&cursors)
            invariant
                fits(frame, *self, *query, terms@, scorer),
                !frame.all,
                s == segment_index < self.segments@.len(),
                *built == self.segments@[s],
                built.wf(),
                built.ordered(),
                names == frame.terms,
                count == cursors@.len(),
                count > 0,
                full_set(cursors@, scorer, built, names),
                phrase_order matches Some(order) ==> order@.len() > 0 && order@.len()
                    == phrase.len() && forall|i: int|
                    0 <= i < phrase.len() ==> (#[trigger] order@[i]) < names.len()
                        && names[order@[i] as int] == phrase[i],
                forall|d: int| #[trigger]
                    frame.candidate(s, d) == (self.live(s, d) && frame.holds_all(s, d) && (
                    phrase_order is Some ==> matching::phrase_matches(
                        built.document(d),
                        phrase,
                        None,
                    ))),
                limit == old(ranked).limit,
                first_stats == *old(stats),
                ranked.limit == limit,
                progress(frame, *ranked, s),
                entries_before(ranked.ranked@, s, floor),
                forall|i: int|
                    0 <= i < count && !(#[trigger] cursors@[i]).done() ==> cursors@[i].doc()
                        >= floor,
                met_or_ahead(frame, ranked.ranked@, limit, s, cursors@, floor),
                stats_follow(first_stats, *stats, *ranked),
                old(ranked).full() ==> ranked.full(),
                0 <= floor <= built.docs@.len(),
                stats.candidate_docs <= first_stats.candidate_docs + floor,
                docs == built.docs@,
                met == frame.holding_all(s),
                found == frame.found_in(s),
                stats.candidate_docs == grown(
                    first_stats.candidate_docs,
                    tally::count_before(docs, met, floor),
                ),
                stats.scored_docs == grown(
                    first_stats.scored_docs,
                    tally::count_before(docs, found, floor),
                ),
                stats.posting_blocks == first_stats.posting_blocks,
                lists == leapfrog::term_lists(built, names),
                end == docs.len(),
                whole == leapfrog::segment_jumps(built, names),
                stats.skipped_blocks == grown(first_stats.skipped_blocks, jumped),
                jumped + leapfrog::jumps_from(lists, places_of(cursors@), end) == whole,
            decreases cursors@[0].list.docids@.len() - cursors@[0].index,
        {
            let ghost first_index = cursors@[0].index;
            let mut target: u32 = max_docid(&cursors);
            proof {
                lemma_turn(scorer, built, names, cursors@, target);
                let i = choose|i: int|
                    0 <= i < cursors@.len() && (#[trigger] cursors@[i]).doc() == target;
                lemma_cursor(cursors@[i], scorer, built, names);
                assert(!cursors@[i].done());
                assert(target < built.docs@.len());
                assert forall|d: int| #[trigger] ahead(cursors@, d) implies target <= d by {
                    assert(cursors@[i].doc() <= d);
                }
            }
            let mut aligned: bool = false;
            while !aligned
                invariant
                    fits(frame, *self, *query, terms@, scorer),
                    s == segment_index < self.segments@.len(),
                    *built == self.segments@[s],
                    built.wf(),
                    names == frame.terms,
                    count == cursors@.len(),
                    count > 0,
                    full_set(cursors@, scorer, built, names),
                    cursor::all_active(cursors@),
                    ranked.limit == limit,
                    progress(frame, *ranked, s),
                    entries_before(ranked.ranked@, s, floor),
                    forall|i: int|
                        0 <= i < count && !(#[trigger] cursors@[i]).done() ==> cursors@[i].doc()
                            >= floor,
                    met_or_ahead(frame, ranked.ranked@, limit, s, cursors@, floor),
                    forall|d: int| #[trigger] ahead(cursors@, d) ==> target <= d,
                    target < built.docs@.len(),
                    first_index <= cursors@[0].index,
                    forall|d: int| #[trigger]
                        frame.candidate(s, d) ==> frame.holds_all(s, d),
                    limit == old(ranked).limit,
                    first_stats == *old(stats),
                    aligned ==> forall|i: int|
                        0 <= i < count ==> (#[trigger] cursors@[i]).doc() == target,
                    stats_follow(first_stats, *stats, *ranked),
                    old(ranked).full() ==> ranked.full(),
                    0 <= floor <= built.docs@.len(),
                    stats.candidate_docs <= first_stats.candidate_docs + floor,
                    docs == built.docs@,
                    met == frame.holding_all(s),
                    found == frame.found_in(s),
                    stats.candidate_docs == grown(
                        first_stats.candidate_docs,
                        tally::count_before(docs, met, floor),
                    ),
                    stats.scored_docs == grown(
                        first_stats.scored_docs,
                        tally::count_before(docs, found, floor),
                    ),
                    stats.posting_blocks == first_stats.posting_blocks,
                    lists == leapfrog::term_lists(built, names),
                    end == docs.len(),
                    whole == leapfrog::segment_jumps(built, names),
                    stats.skipped_blocks == grown(first_stats.skipped_blocks, jumped),
                    jumped + (if aligned {
                        leapfrog::jumps(lists, places_of(cursors@), end, target as int, target as int, count as int)
                    } else {
                        leapfrog::jumps(lists, places_of(cursors@), end, target as int, target as int, 0)
                    }) == whole,
                decreases
                        if aligned {
                            0
                        } else {
                            1 + built.docs@.len() - target
                        },
            {
                aligned = true;
                let ghost pass_target = target;
                let mut k: usize = 0;
                while k < count
                    invariant
                        fits(frame, *self, *query, terms@, scorer),
                        s == segment_index < self.segments@.len(),
                        *built == self.segments@[s],
                        built.wf(),
                        names == frame.terms,
                        count == cursors@.len(),
                        count > 0,
                        k <= count,
                        full_set(cursors@, scorer, built, names),
                        cursor::all_active(cursors@),
                        ranked.limit == limit,
                        progress(frame, *ranked, s),
                        entries_before(ranked.ranked@, s, floor),
                        forall|i: int|
                            0 <= i < count && !(#[trigger] cursors@[i]).done()
                                ==> cursors@[i].doc() >= floor,
                        met_or_ahead(frame, ranked.ranked@, limit, s, cursors@, floor),
                        forall|d: int| #[trigger] ahead(cursors@, d) ==> target <= d,
                        target < built.docs@.len(),
                        first_index <= cursors@[0].index,
                        forall|d: int| #[trigger]
                            frame.candidate(s, d) ==> frame.holds_all(s, d),
                        limit == old(ranked).limit,
                        first_stats == *old(stats),
                        pass_target <= target,
                        aligned ==> target == pass_target && forall|i: int|
                            0 <= i < k ==> (#[trigger] cursors@[i]).doc() == target,
                        !aligned ==> target > pass_target,
                        stats_follow(first_stats, *stats, *ranked),
                        old(ranked).full() ==> ranked.full(),
                        0 <= floor <= built.docs@.len(),
                        stats.candidate_docs <= first_stats.candidate_docs + floor,
                        docs == built.docs@,
                        met == frame.holding_all(s),
                        found == frame.found_in(s),
                        stats.candidate_docs == grown(
                            first_stats.candidate_docs,
                            tally::count_before(docs, met, floor),
                        ),
                        stats.scored_docs == grown(
                            first_stats.scored_docs,
                            tally::count_before(docs, found, floor),
                        ),
                        stats.posting_blocks == first_stats.posting_blocks,
                        lists == leapfrog::term_lists(built, names),
                        end == docs.len(),
                        whole == leapfrog::segment_jumps(built, names),
                        stats.skipped_blocks == grown(first_stats.skipped_blocks, jumped),
                        jumped + leapfrog::jumps(
                            lists,
                            places_of(cursors@),
                            end,
                            pass_target as int,
                            target as int,
                            k as int,
                        ) == whole,
                    decreases count - k,
                {
                    assert(!cursors@[k as int].done());
                    let ghost before = cursors@;
                    let ghost goal = target as int;
                    proof {
                        lemma_cursor(cursors@[k as int], scorer, built, names);
                        lemma_list_of(scorer, built, names, cursors@, k as int);
                    }
                    if cursors[k].docid() < target {
                        let passed: usize = cursors[k].advance_to(target);
                        stats.skipped_blocks = stats.skipped_blocks.saturating_add(passed);
                        proof {
                            let after = cursors@;
                            assert(after =~= before.update(k as int, after[k as int]));
                            jumped = jumped + passed as nat;
                            assert(full_set(after, scorer, built, names));
                            assert forall|d: int|
                                self.in_range(s, d) && frame.holds_all(s, d) implies #[trigger] ahead(
                                after,
                                d,
                            ) || d < floor && frame.settled(ranked.ranked@, limit, s, d) by {
                                if ahead(before, d) {
                                    lemma_advance_keeps(
                                        frame,
                                        scorer,
                                        s,
                                        before,
                                        after,
                                        k as int,
                                        target,
                                        d,
                                    );
                                }
                            }
                            assert forall|d: int| #[trigger] ahead(after, d) implies target
                                <= d by {
                                assert(!after[k as int].done() && after[k as int].doc() <= d);
                            }
                        }
                        if cursors[k].exhausted() {
                            proof {
                                leapfrog::lemma_move(
                                    lists,
                                    places_of(before),
                                    end,
                                    pass_target as int,
                                    goal,
                                    k as int,
                                    cursors@[k as int].index as int,
                                );
                                assert forall|s2: int, d: int|
                                    0 <= s2 < s + 1 && self.in_range(
                                        s2,
                                        d,
                                    ) implies #[trigger] frame.settled(
                                    ranked.ranked@,
                                    limit,
                                    s2,
                                    d,
                                ) by {
                                    if s2 == s && frame.candidate(s, d) {
                                        assert(!ahead(cursors@, d)) by {
                                            assert(cursors@[k as int].done());
                                        }
                                    }
                                }
                                lemma_all_met(
                                    frame,
                                    ranked.ranked@,
                                    limit,
                                    s,
                                    cursors@,
                                    floor,
                                    k as int,
                                );
                            }
                            return ;
                        }
                    }
                    if cursors[k].docid() > target {
                        target = cursors[k].docid();
                        aligned = false;
                        proof {
                            lemma_cursor(cursors@[k as int], scorer, built, names);
                            assert forall|d: int| #[trigger] ahead(cursors@, d) implies target
                                <= d by {
                                assert(cursors@[k as int].doc() <= d);
                            }
                        }
                    }
                    proof {
                        let landed = cursors@[k as int].index as int;
                        leapfrog::lemma_move(
                            lists,
                            places_of(before),
                            end,
                            pass_target as int,
                            goal,
                            k as int,
                            landed,
                        );
                        assert(places_of(cursors@) =~= places_of(before).update(
                            k as int,
                            landed,
                        ));
                    }
                    k = k + 1;
                }
                proof {
                    if !aligned {
                        leapfrog::lemma_turn_again(
                            lists,
                            places_of(cursors@),
                            end,
                            pass_target as int,
                            target as int,
                        );
                    }
                }
            }
            let ghost before = ranked.ranked@;
            proof {
                assert(frame.holds_all(s, target as int)) by {
                    assert forall|k: int| 0 <= k < names.len() implies built.holds(
                        target as int,
                        #[trigger] names[k],
                    ) by {
                        lemma_cursor(cursors@[k], scorer, built, names);
                        assert(cursors@[k].doc() == target);
                        assert(!cursors@[k].done());
                    }
                }
                assert(cursors@[0].doc() == target && !cursors@[0].done());
                assert(frame.holds_term(s, target as int)) by {
                    assert(built.holds(target as int, names[0]));
                }
            }
            proof {
                assert forall|d: int| floor <= d < target implies !#[trigger] met(d) by {
                    if frame.holds_all(s, d) {
                        assert(self.in_range(s, d));
                        assert(ahead(cursors@, d));
                    }
                }
                assert forall|d: int| floor <= d < target implies !#[trigger] found(d) by {
                    assert(!met(d));
                }
                tally::count_next(docs, met, floor, target as int);
                tally::count_next(docs, found, floor, target as int);
                assert(met(target as int));
                assert(found(target as int) == frame.candidate(s, target as int));
            }
            stats.candidate_docs = stats.candidate_docs.saturating_add(1);
            let live: bool = self.is_live(segment_index, target);
            let found: bool = match phrase_order {
                None => true,
                Some(order) => {
                    proof {
                        assert forall|i: int| 0 <= i < phrase.len() implies {
                            let ordinal = #[trigger] order@[i] as int;
                            &&& ordinal < cursors@.len()
                            &&& cursors@[ordinal].index < cursors@[ordinal].list.positions@.len()
                            &&& cursors@[ordinal].list.ordered()
                            &&& cursors@[ordinal].list.positions@[cursors@[ordinal].index as int]@
                                == built.document(target as int)(phrase[i])
                        } by {
                            let ordinal = order@[i] as int;
                            lemma_cursor(cursors@[ordinal], scorer, built, names);
                            assert(!cursors@[ordinal].done());
                            assert(cursors@[ordinal].doc() == target);
                        }
                    }
                    cursor_phrase_matches(
                        &cursors,
                        order,
                        Ghost(built.document(target as int)),
                        Ghost(phrase),
                    )
                },
            };
            if live && found {
                assert(frame.candidate(s, target as int));
                stats.scored_docs = stats.scored_docs.saturating_add(1);
                let doc = &built.docs[target as usize];
                let mut score: u32 = scorer.start();
                let mut k: usize = 0;
                assert(names.take(0) =~= Seq::empty());
                while k < count
                    invariant
                        k <= count,
                        count == cursors@.len() == names.len(),
                        built.wf(),
                        target < built.docs@.len(),
                        *doc == built.docs@[target as int],
                        full_set(cursors@, scorer, built, names),
                        cursor::all_active(cursors@),
                        forall|i: int|
                            0 <= i < count ==> (#[trigger] cursors@[i]).doc() == target,
                        scorer::scored(
                            scorer,
                            built.parts(names.take(k as int), target as int),
                            score,
                        ),
                    decreases count - k,
                {
                    let ghost earlier = score;
                    let walker = &cursors[k];
                    proof {
                        lemma_cursor(cursors@[k as int], scorer, built, names);
                        assert(!cursors@[k as int].done());
                        assert(cursors@[k as int].doc() == target);
                    }
                    score = scorer.add_term(
                        score,
                        walker.ordinal,
                        walker.list.freqs[walker.index],
                        doc.len,
                    );
                    proof {
                        lemma_add_part(
                            scorer,
                            built,
                            names,
                            k as int,
                            target as int,
                            earlier,
                            score,
                        );
                    }
                    k = k + 1;
                }
                assert(names.take(k as int) =~= names);
                assert(frame.has_score(s, target as int, score));
                let hit = RankedDoc {
                    segment: segment_index,
                    docid: target,
                    rowid: doc.rowid,
                    score,
                };
                assert(entries_before(ranked.ranked@, s, target as int));
                self.enter(hit, ranked, Ghost(frame), Ghost(s));
            } else {
                assert(frame.settled(ranked.ranked@, limit, s, target as int));
                assert(entries_before(ranked.ranked@, s, target + 1));
            }
            let ghost aligned_cursors = cursors@;
            let mut k: usize = 0;
            while k < count
                invariant
                    k <= count,
                    count == cursors@.len() == names.len(),
                    count == aligned_cursors.len(),
                    cursor::all_active(aligned_cursors),
                    full_set(aligned_cursors, scorer, built, names),
                    forall|i: int|
                        0 <= i < k ==> aligned_cursors[i].steps_to(#[trigger] cursors@[i]),
                    forall|i: int|
                        k <= i < count ==> #[trigger] cursors@[i] == aligned_cursors[i],
                decreases count - k,
            {
                assert(!aligned_cursors[k as int].done());
                cursors[k].step();
                k = k + 1;
            }
            proof {
                lemma_stepped_on(scorer, built, names, aligned_cursors, cursors@, target);
                floor = target + 1;
                assert forall|i: int| 0 <= i < count implies cursor_ok(
                    #[trigger] cursors@[i],
                    scorer,
                    built,
                    names,
                ) && cursors@[i].ordinal == i && (!cursors@[i].done() ==> cursors@[i].doc()
                    >= floor) by {
                    lemma_cursor(aligned_cursors[i], scorer, built, names);
                    assert(!aligned_cursors[i].done());
                    assert(aligned_cursors[i].doc() == target);
                    if !cursors@[i].done() {
                        assert(aligned_cursors[i].list.docids@[aligned_cursors[i].index as int]
                            < aligned_cursors[i].list.docids@[aligned_cursors[i].index + 1]);
                    }
                }
                assert forall|d: int|
                    self.in_range(s, d) && frame.holds_all(s, d) implies #[trigger] ahead(
                    cursors@,
                    d,
                ) || d < floor && frame.settled(ranked.ranked@, limit, s, d) by {
                    if !ahead(aligned_cursors, d) {
                        assert(frame.settled(before, limit, s, d));
                        assert(frame.settled(ranked.ranked@, limit, s, d));
                    } else if d != target {
                        lemma_step_ahead(
                            frame,
                            scorer,
                            s,
                            aligned_cursors,
                            cursors@,
                            target,
                            d,
                        );
                    }
                }
            }
        }
        proof {
            assert forall|s2: int, d: int|
                0 <= s2 < s + 1 && self.in_range(s2, d) implies #[trigger] frame.settled(
                ranked.ranked@,
                limit,
                s2,
                d,
            ) by {
                if s2 == s && frame.candidate(s, d) {
                    assert(!ahead(cursors@, d)) by {
                        let i = choose|i: int|
                            0 <= i < cursors@.len() && (#[trigger] cursors@[i]).done();
                        assert(cursors@[i].done());
                    }
                }
            }
            let i = choose|i: int| 0 <= i < cursors@.len() && (#[trigger] cursors@[i]).done();
            lemma_list_of(scorer, built, names, cursors@, i);
            assert(leapfrog::ended(lists, places_of(cursors@))) by {
                assert(places_of(cursors@)[i] >= lists[i].len());
            }
            lemma_all_met(frame, ranked.ranked@, limit, s, cursors@, floor, i);
        }
    }
}

/// Where the cursors stand.
spec fn places_of(cursors: Seq<WandCursor<'_>>) -> Seq<int> {
    cursors.map_values(|walker: WandCursor<'_>| walker.index as int)
}

/// The cursor of a term walks the list of the term.
proof fn lemma_list_of<S: Scorer>(
    scorer: &S,
    built: &Segment,
    names: Seq<Seq<char>>,
    cursors: Seq<WandCursor<'_>>,
    k: int,
)
    requires
        full_set(cursors, scorer, built, names),
        0 <= k < cursors.len(),
    ensures
        leapfrog::term_lists(built, names)[k] == cursors[k].list.docids@,
        leapfrog::term_lists(built, names).len() == cursors.len(),
        places_of(cursors)[k] == cursors[k].index,
        places_of(cursors).len() == cursors.len(),
{
    assert(cursor_ok(cursors[k], scorer, built, names) && cursors[k].ordinal == k);
}

/// A turn begins with the farthest document as its goal.
proof fn lemma_turn<S: Scorer>(
    scorer: &S,
    built: &Segment,
    names: Seq<Seq<char>>,
    cursors: Seq<WandCursor<'_>>,
    target: u32,
)
    requires
        built.wf(),
        full_set(cursors, scorer, built, names),
        cursors.len() > 0,
        cursor::all_active(cursors),
        exists|i: int| 0 <= i < cursors.len() && (#[trigger] cursors[i]).doc() == target,
        forall|i: int| 0 <= i < cursors.len() ==> (#[trigger] cursors[i]).doc() <= target,
    ensures
        ({
            let lists = leapfrog::term_lists(built, names);
            let end = built.docs@.len() as int;
            leapfrog::jumps_from(lists, places_of(cursors), end) == leapfrog::jumps(
                lists,
                places_of(cursors),
                end,
                target as int,
                target as int,
                0,
            )
        }),
        !leapfrog::ended(leapfrog::term_lists(built, names), places_of(cursors)),
        packing::largest(
            leapfrog::heads(leapfrog::term_lists(built, names), places_of(cursors)),
        ) == target,
{
    let lists = leapfrog::term_lists(built, names);
    let places = places_of(cursors);
    assert forall|k: int| 0 <= k < lists.len() implies places[k] < lists[k].len()
        && lists[k][#[trigger] places[k]] <= target by {
        lemma_list_of(scorer, built, names, cursors, k);
        assert(!cursors[k].done());
        assert(cursors[k].doc() <= target);
    }
    let at = choose|i: int| 0 <= i < cursors.len() && (#[trigger] cursors[i]).doc() == target;
    lemma_list_of(scorer, built, names, cursors, at);
    assert(!cursors[at].done());
    leapfrog::lemma_farthest(lists, places, target, at);
}

/// When all cursors have met at `target` and moved on, the walk goes on from there.
proof fn lemma_stepped_on<S: Scorer>(
    scorer: &S,
    built: &Segment,
    names: Seq<Seq<char>>,
    before: Seq<WandCursor<'_>>,
    after: Seq<WandCursor<'_>>,
    target: u32,
)
    requires
        built.wf(),
        full_set(before, scorer, built, names),
        before.len() > 0,
        cursor::all_active(before),
        after.len() == before.len(),
        forall|i: int| 0 <= i < before.len() ==> before[i].steps_to(#[trigger] after[i]),
        forall|i: int| 0 <= i < before.len() ==> (#[trigger] before[i]).doc() == target,
    ensures
        ({
            let lists = leapfrog::term_lists(built, names);
            let end = built.docs@.len() as int;
            leapfrog::jumps_from(lists, places_of(after), end) == leapfrog::jumps(
                lists,
                places_of(before),
                end,
                target as int,
                target as int,
                before.len() as int,
            )
        }),
{
    reveal(leapfrog::jumps);
    let lists = leapfrog::term_lists(built, names);
    let end = built.docs@.len() as int;
    let places = places_of(after);
    assert(places =~= leapfrog::stepped(places_of(before))) by {
        assert forall|i: int| 0 <= i < after.len() implies places[i] == leapfrog::stepped(
            places_of(before),
        )[i] by {
            assert(before[i].steps_to(after[i]));
        }
    }
    assert forall|i: int| 0 <= i < before.len() implies lists[i] == (#[trigger] before[i]).list.docids@
        && places[i] == before[i].index + 1 && before[i].index < lists[i].len()
        && lists[i][before[i].index as int] == target && before[i].list.wf(built.docs@) by {
        lemma_list_of(scorer, built, names, before, i);
        assert(!before[i].done());
        assert(before[i].doc() == target);
        assert(before[i].steps_to(after[i]));
        assert(cursor_ok(before[i], scorer, built, names));
        lemma_cursor(before[i], scorer, built, names);
    }
    assert(target < end) by {
        assert(before[0].list.docids@[before[0].index as int] < built.docs@.len());
    }
    assert(lists.len() == before.len());
    if !leapfrog::ended(lists, places) {
        let all = leapfrog::heads(lists, places);
        let goal = packing::largest(all);
        packing::largest_bounds(all);
        assert(before[0].list.docids@ == lists[0]);
        assert(places[0] < lists[0].len());
        assert(lists[0][before[0].index as int] < lists[0][before[0].index + 1]);
        assert(all[0] == lists[0][places[0]]);
        assert(goal > target);
        leapfrog::lemma_largest_stands(all);
        let k = choose|k: int| 0 <= k < all.len() && all[k] == goal;
        assert(before[k].list.docids@ == lists[k]);
        assert(places[k] < lists[k].len());
        assert(goal < end);
    }
}

/// Once a cursor is done, no document from the floor on holds every term.
proof fn lemma_all_met(
    frame: Frame,
    ranked: Seq<RankedDoc>,
    limit: int,
    segment: int,
    cursors: Seq<WandCursor<'_>>,
    floor: int,
    done: int,
)
    requires
        0 <= segment < frame.snapshot.segments@.len(),
        met_or_ahead(frame, ranked, limit, segment, cursors, floor),
        0 <= done < cursors.len(),
        cursors[done].done(),
        0 <= floor <= frame.snapshot.segments@[segment].docs@.len(),
        forall|d: int| #[trigger]
            frame.candidate(segment, d) ==> frame.holds_all(segment, d),
    ensures
        ({
            let docs = frame.snapshot.segments@[segment].docs@;
            let (met, found) = (frame.holding_all(segment), frame.found_in(segment));
            &&& tally::count_before(docs, met, floor) == tally::segment_tally(
                docs,
                met,
                tally::one(),
            )
            &&& tally::count_before(docs, found, floor) == tally::segment_tally(
                docs,
                found,
                tally::one(),
            )
        }),
{
    let docs = frame.snapshot.segments@[segment].docs@;
    let (met, found) = (frame.holding_all(segment), frame.found_in(segment));
    let end = docs.len() as int;
    assert forall|d: int| floor <= d < end implies !#[trigger] met(d) by {
        if frame.holds_all(segment, d) {
            assert(frame.snapshot.in_range(segment, d));
            assert(!ahead(cursors, d)) by {
                assert(cursors[done].done());
            }
        }
    }
    assert forall|d: int| floor <= d < end implies !#[trigger] found(d) by {
        assert(!met(d));
    }
    tally::count_gap(docs, met, floor, end);
    tally::count_gap(docs, found, floor, end);
    assert(docs.take(end) =~= docs);
}

/// At the start every document that holds all terms is ahead.
proof fn lemma_start_ahead<S: Scorer>(
    frame: Frame,
    scorer: &S,
    segment: int,
    cursors: Seq<WandCursor<'_>>,
    docid: int,
)
    requires
        0 <= segment < frame.snapshot.segments@.len(),
        frame.snapshot.segments@[segment].wf(),
        full_set(cursors, scorer, &frame.snapshot.segments@[segment], frame.terms),
        forall|i: int| 0 <= i < cursors.len() ==> (#[trigger] cursors[i]).index == 0,
        frame.holds_all(segment, docid),
    ensures
        ahead(cursors, docid),
{
    let built = frame.snapshot.segments@[segment];
    assert forall|i: int| 0 <= i < cursors.len() implies !(#[trigger] cursors[i]).done()
        && cursors[i].doc() <= docid by {
        lemma_cursor(cursors[i], scorer, &built, frame.terms);
        assert(built.holds(docid, frame.terms[i]));
        let p = cursors[i].list.index_of(docid);
        assert(cursors[i].list.docids@[p] == docid);
        if p > 0 {
            assert(cursors[i].list.docids@[0] < cursors[i].list.docids@[p]);
        }
    }
}

/// Moving all cursors one past `target` passes no other document.
proof fn lemma_step_ahead<S: Scorer>(
    frame: Frame,
    scorer: &S,
    segment: int,
    before: Seq<WandCursor<'_>>,
    after: Seq<WandCursor<'_>>,
    target: u32,
    docid: int,
)
    requires
        0 <= segment < frame.snapshot.segments@.len(),
        frame.snapshot.segments@[segment].wf(),
        full_set(before, scorer, &frame.snapshot.segments@[segment], frame.terms),
        after.len() == before.len(),
        forall|i: int|
            0 <= i < before.len() ==> before[i].steps_to(#[trigger] after[i]),
        cursor::all_active(before),
        forall|i: int| 0 <= i < before.len() ==> (#[trigger] before[i]).doc() == target,
        frame.holds_all(segment, docid),
        ahead(before, docid),
        docid != target,
    ensures
        ahead(after, docid),
{
    let built = frame.snapshot.segments@[segment];
    assert forall|i: int| 0 <= i < after.len() implies !(#[trigger] after[i]).done()
        && after[i].doc() <= docid by {
        let walker = before[i];
        lemma_cursor(walker, scorer, &built, frame.terms);
        assert(!walker.done() && walker.doc() <= docid && walker.doc() == target);
        assert(built.holds(docid, frame.terms[i]));
        let p = walker.list.index_of(docid);
        assert(walker.list.docids@[p] == docid);
        if p < walker.index {
            assert(walker.list.docids@[p] < walker.list.docids@[walker.index as int]);
        }
        assert(walker.index < p);
        if walker.index + 1 < p {
            assert(walker.list.docids@[walker.index + 1] < walker.list.docids@[p]);
        }
    }
}

} // verus!
