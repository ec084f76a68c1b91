//! When two searches find the same.
use crate::answer;
use crate::answer::Frame;
use crate::query::{lemma_child_decreases, Query, SearchHit};
use crate::ranking;
use crate::ranking::RankedDoc;
use crate::scorer;
use crate::scorer::Scorer;
use crate::scoring;
use crate::search;
use crate::segment::Segment;
use crate::snapshot::Snapshot;
use crate::statistics::{same_contents_same_positions, same_contents_same_statistics};
use crate::text;
use crate::tokenizer;
use vstd::prelude::*;

verus! {

/// Sequences in the same strict order that hold the same are the same.
proof fn lemma_strict_order_unique<T>(left: Seq<T>, right: Seq<T>, before: spec_fn(T, T) -> bool)
    requires
        forall|a: T, b: T| !(#[trigger] before(a, b) && before(b, a)),
        forall|i: int, j: int|
            0 <= i < j < left.len() ==> before(#[trigger] left[i], #[trigger] left[j]),
        forall|i: int, j: int|
            0 <= i < j < right.len() ==> before(#[trigger] right[i], #[trigger] right[j]),
        forall|x: T| #[trigger] left.contains(x) == right.contains(x),
    ensures
        left == right,
    decreases left.len(),
{
    if left.len() == 0 {
        if right.len() > 0 {
            assert(right.contains(right[0]));
            assert(left.contains(right[0]));
        }
        assert(left =~= right);
    } else {
        assert(left.contains(left[0]));
        assert(right.contains(left[0]));
        let (a, b) = (left.last(), right.last());
        assert(left[left.len() - 1] == a && right[right.len() - 1] == b);
        assert(left.contains(a) && right.contains(b));
        assert(right.contains(a) && left.contains(b));
        let i = choose|i: int| 0 <= i < right.len() && right[i] == a;
        let j = choose|j: int| 0 <= j < left.len() && left[j] == b;
        if i < right.len() - 1 {
            assert(before(right[i], right[right.len() - 1]));
            if j < left.len() - 1 {
                assert(before(left[j], left[left.len() - 1]));
            }
            assert(before(a, b) && before(b, a));
        }
        assert(a == b);
        let (front, front2) = (left.drop_last(), right.drop_last());
        assert forall|k: int, l: int| 0 <= k < l < front.len() implies before(
            #[trigger] front[k],
            #[trigger] front[l],
        ) by {
            assert(before(left[k], left[l]));
        }
        assert forall|k: int, l: int| 0 <= k < l < front2.len() implies before(
            #[trigger] front2[k],
            #[trigger] front2[l],
        ) by {
            assert(before(right[k], right[l]));
        }
        assert forall|x: T| #[trigger] front.contains(x) == front2.contains(x) by {
            if front.contains(x) {
                let k = choose|k: int| 0 <= k < front.len() && front[k] == x;
                assert(left[k] == x);
                assert(left.contains(x));
                let l = choose|l: int| 0 <= l < right.len() && right[l] == x;
                if l == right.len() - 1 {
                    assert(before(left[k], left[left.len() - 1]));
                    assert(before(x, x));
                }
                assert(front2[l] == x);
            }
            if front2.contains(x) {
                let k = choose|k: int| 0 <= k < front2.len() && front2[k] == x;
                assert(right[k] == x);
                assert(right.contains(x));
                assert(left.contains(x) == right.contains(x));
                let l = choose|l: int| 0 <= l < left.len() && left[l] == x;
                if l == left.len() - 1 {
                    assert(before(right[k], right[right.len() - 1]));
                    assert(before(x, x));
                }
                assert(front[l] == x);
            }
        }
        lemma_strict_order_unique(front, front2, before);
        assert(left =~= front.push(a));
        assert(right =~= front2.push(b));
    }
}

/// The terms that count, in order, are determined by the query.
pub proof fn scoring_terms_unique(
    left: Snapshot,
    right: Snapshot,
    query: Query,
    terms: Seq<Seq<char>>,
    terms2: Seq<Seq<char>>,
)
    requires
        left.scoring_terms(query, terms),
        right.scoring_terms(query, terms2),
        forall|term: Seq<char>| #[trigger] left.scores(query, term) == right.scores(query, term),
    ensures
        terms == terms2,
{
    let before = |a: Seq<char>, b: Seq<char>| text::text_before(a, b);
    assert forall|a: Seq<char>, b: Seq<char>| !(#[trigger] before(a, b) && before(b, a)) by {
        text::text_order_laws(a, b, a);
    }
    assert forall|i: int, j: int| 0 <= i < j < terms.len() implies before(
        #[trigger] terms[i],
        #[trigger] terms[j],
    ) by {
        assert(text::text_before(terms[i], terms[j]));
    }
    assert forall|i: int, j: int| 0 <= i < j < terms2.len() implies before(
        #[trigger] terms2[i],
        #[trigger] terms2[j],
    ) by {
        assert(text::text_before(terms2[i], terms2[j]));
    }
    assert forall|term: Seq<char>| #[trigger] terms.contains(term) == terms2.contains(term) by {
        assert(left.scores(query, term) == right.scores(query, term));
    }
    lemma_strict_order_unique(terms, terms2, before);
}

impl Frame {
    /// Where the document with this rowid stands.
    pub open spec fn place(self, rowid: i64) -> (int, int) {
        (
            self.snapshot.latest@[rowid].segment as int,
            self.snapshot.latest@[rowid].docid as int,
        )
    }

    /// The document with this rowid is to be found.
    pub open spec fn finds(self, rowid: i64) -> bool {
        &&& self.snapshot.content(rowid) is Some
        &&& self.candidate(self.place(rowid).0, self.place(rowid).1)
    }

    /// The document with this rowid can have this score.
    pub open spec fn rates(self, rowid: i64, score: u32) -> bool {
        self.has_score(self.place(rowid).0, self.place(rowid).1, score)
    }

    /// Both frames look for the same documents and score them alike.
    pub open spec fn agrees(self, other: Frame) -> bool {
        &&& forall|rowid: i64| #[trigger] self.finds(rowid) == other.finds(rowid)
        &&& forall|rowid: i64, score: u32|
            self.finds(rowid) ==> #[trigger] self.rates(rowid, score) == other.rates(rowid, score)
    }

    /// A candidate stands at the place of its rowid.
    proof fn lemma_place(self, segment: int, docid: int)
        requires
            self.wf(),
            self.candidate(segment, docid),
        ensures
            self.place(self.snapshot.doc(segment, docid).rowid) == (segment, docid),
            self.finds(self.snapshot.doc(segment, docid).rowid),
    {
        assert(self.snapshot.live(segment, docid));
    }
}

/// What a hit shows of a ranked document.
spec fn pair(entry: RankedDoc) -> (i64, u32) {
    (entry.rowid, entry.score)
}

spec fn pairs(ranked: Seq<RankedDoc>) -> Seq<(i64, u32)> {
    ranked.map_values(|entry: RankedDoc| pair(entry))
}

/// The rank order as far as hits show it.
spec fn pair_before(left: (i64, u32), right: (i64, u32)) -> bool {
    if left.1 != right.1 {
        ranking::score_key(left.1) > ranking::score_key(right.1)
    } else {
        left.0 < right.0
    }
}

/// What an answer says of its pairs.
proof fn lemma_pairs(frame: Frame, ranked: Seq<RankedDoc>, limit: int)
    requires
        frame.wf(),
        frame.functional(),
        frame.sure || ranked.len() < limit,
        frame.answer(ranked, limit),
    ensures
        forall|i: int, j: int|
            0 <= i < j < ranked.len() ==> pair_before(
                #[trigger] pairs(ranked)[i],
                #[trigger] pairs(ranked)[j],
            ),
        forall|i: int|
            0 <= i < ranked.len() ==> frame.finds((#[trigger] pairs(ranked)[i]).0) && frame.rates(
                pairs(ranked)[i].0,
                pairs(ranked)[i].1,
            ),
        forall|rowid: i64, score: u32|
            frame.finds(rowid) && #[trigger] frame.rates(rowid, score) && !pairs(ranked).contains(
                (rowid, score),
            ) ==> ranked.len() == limit && (limit > 0 ==> pair_before(
                pairs(ranked).last(),
                (rowid, score),
            )),
{
    let shown = pairs(ranked);
    assert forall|i: int| 0 <= i < ranked.len() implies frame.finds((#[trigger] shown[i]).0)
        && frame.rates(shown[i].0, shown[i].1) && frame.place(shown[i].0) == (
        ranked[i].segment as int,
        ranked[i].docid as int,
    ) by {
        let entry = ranked[i];
        frame.lemma_place(entry.segment as int, entry.docid as int);
    }
    assert forall|i: int, j: int| 0 <= i < j < ranked.len() implies pair_before(
        #[trigger] shown[i],
        #[trigger] shown[j],
    ) by {
        assert(ranking::ranks_before(ranked[i], ranked[j]));
        assert(!ranking::same_place(ranked[i], ranked[j]));
        assert(shown[i].0 == ranked[i].rowid && shown[j].0 == ranked[j].rowid);
        assert(frame.place(shown[i].0) != frame.place(shown[j].0));
    }
    assert forall|rowid: i64, score: u32|
        frame.finds(rowid) && #[trigger] frame.rates(rowid, score) && !shown.contains(
            (rowid, score),
        ) implies ranked.len() == limit && (limit > 0 ==> pair_before(
        shown.last(),
        (rowid, score),
    )) by {
        let (s, d) = frame.place(rowid);
        let location = frame.snapshot.latest@[rowid];
        assert(frame.snapshot.live(s, d));
        assert(frame.snapshot.doc(s, d).rowid == rowid);
        assert(frame.settled(ranked, limit, s, d));
        if answer::listed(ranked, s, d) {
            let i = choose|i: int|
                0 <= i < ranked.len() && (#[trigger] ranked[i]).segment == s && ranked[i].docid
                    == d;
            assert(frame.has_score(s, d, ranked[i].score));
            assert(frame.has_score(s, d, score));
            assert(shown[i] == (rowid, score));
        }
        if limit > 0 {
            let last = ranked.last();
            assert(frame.has_score(s, d, score));
            let entry = frame.entry(s, d, score);
            assert(ranking::ranks_before(last, entry));
            assert(shown.last() == pair(last));
            assert(shown[ranked.len() - 1] == pair(last));
            if last.score == score && last.rowid == rowid {
                assert(shown.contains((rowid, score))) by {
                    assert(shown[ranked.len() - 1] == (rowid, score));
                }
            }
        }
    }
}

/// Where `left` has a pair that `right` lacks, `right` has one that `left` lacks.
proof fn lemma_exchange(left: Seq<(i64, u32)>, right: Seq<(i64, u32)>, extra: (i64, u32)) -> (other:
    (i64, u32))
    requires
        left.no_duplicates(),
        right.no_duplicates(),
        left.len() <= right.len(),
        left.contains(extra),
        !right.contains(extra),
    ensures
        right.contains(other),
        !left.contains(other),
{
    let (a, b) = (left.to_set(), right.to_set());
    left.unique_seq_to_set();
    right.unique_seq_to_set();
    if forall|x: (i64, u32)| b.contains(x) ==> a.contains(x) {
        assert(b.subset_of(a.remove(extra)));
        vstd::set_lib::lemma_len_subset(b, a.remove(extra));
        assert(false);
    }
    let other = choose|x: (i64, u32)| b.contains(x) && !a.contains(x);
    other
}

/// Pairs in rank order are all different.
proof fn lemma_distinct_pairs(shown: Seq<(i64, u32)>)
    requires
        forall|i: int, j: int|
            0 <= i < j < shown.len() ==> pair_before(#[trigger] shown[i], #[trigger] shown[j]),
    ensures
        shown.no_duplicates(),
{
    assert forall|j: int, k: int|
        0 <= j < shown.len() && 0 <= k < shown.len() && j != k implies shown[j] != shown[k] by {
        if j < k {
            assert(pair_before(shown[j], shown[k]));
        } else {
            assert(pair_before(shown[k], shown[j]));
        }
    }
}

proof fn lemma_within(
    left: Frame,
    right: Frame,
    ranked: Seq<RankedDoc>,
    ranked2: Seq<RankedDoc>,
    limit: int,
    shown: (i64, u32),
)
    requires
        left.wf(),
        right.wf(),
        left.functional(),
        right.functional(),
        left.sure || ranked.len() < limit,
        right.sure || ranked2.len() < limit,
        left.agrees(right),
        left.answer(ranked, limit),
        right.answer(ranked2, limit),
        limit > 0,
        pairs(ranked).contains(shown),
    ensures
        pairs(ranked2).contains(shown),
{
    lemma_pairs(left, ranked, limit);
    lemma_pairs(right, ranked2, limit);
    let (p, q) = (pairs(ranked), pairs(ranked2));
    if !q.contains(shown) {
        let i = choose|i: int| 0 <= i < p.len() && p[i] == shown;
        assert(left.finds(p[i].0) && left.rates(p[i].0, p[i].1));
        assert(left.finds(shown.0) && left.rates(shown.0, shown.1));
        assert(right.finds(shown.0) && right.rates(shown.0, shown.1));
        assert(q.len() == limit && pair_before(q.last(), shown));
        lemma_distinct_pairs(p);
        lemma_distinct_pairs(q);
        let other = lemma_exchange(p, q, shown);
        let j = choose|j: int| 0 <= j < q.len() && q[j] == other;
        assert(right.finds(q[j].0) && right.rates(q[j].0, q[j].1));
        assert(left.finds(other.0));
        assert(left.rates(other.0, other.1));
        assert(p.len() == limit && pair_before(p.last(), other));
        if j < q.len() - 1 {
            assert(pair_before(q[j], q[q.len() - 1]));
        }
        if i < p.len() - 1 {
            assert(pair_before(p[i], p[p.len() - 1]));
        }
    }
}

/// Answers of searches that look for the same and score alike show the same, in
/// the same order.
pub proof fn answers_agree(
    left: Frame,
    right: Frame,
    ranked: Seq<RankedDoc>,
    ranked2: Seq<RankedDoc>,
    limit: int,
)
    requires
        left.wf(),
        right.wf(),
        left.functional(),
        right.functional(),
        left.sure || ranked.len() < limit,
        right.sure || ranked2.len() < limit,
        left.agrees(right),
        left.answer(ranked, limit),
        right.answer(ranked2, limit),
        limit > 0,
    ensures
        ranked.len() == ranked2.len(),
        forall|i: int|
            0 <= i < ranked.len() ==> (#[trigger] ranked[i]).rowid == ranked2[i].rowid
                && ranked[i].score == ranked2[i].score,
{
    let (p, q) = (pairs(ranked), pairs(ranked2));
    let before = |a: (i64, u32), b: (i64, u32)| pair_before(a, b);
    lemma_pairs(left, ranked, limit);
    lemma_pairs(right, ranked2, limit);
    assert(right.agrees(left)) by {
        assert forall|rowid: i64, score: u32| right.finds(rowid) implies #[trigger] right.rates(
            rowid,
            score,
        ) == left.rates(rowid, score) by {
            assert(left.finds(rowid) == right.finds(rowid));
            assert(left.rates(rowid, score) == right.rates(rowid, score));
        }
        assert forall|rowid: i64| #[trigger] right.finds(rowid) == left.finds(rowid) by {
            assert(left.finds(rowid) == right.finds(rowid));
        }
    }
    assert forall|shown: (i64, u32)| #[trigger] p.contains(shown) == q.contains(shown) by {
        if p.contains(shown) {
            lemma_within(left, right, ranked, ranked2, limit, shown);
        }
        if q.contains(shown) {
            lemma_within(right, left, ranked2, ranked, limit, shown);
        }
    }
    assert forall|i: int, j: int| 0 <= i < j < p.len() implies before(
        #[trigger] p[i],
        #[trigger] p[j],
    ) by {
        assert(pair_before(p[i], p[j]));
    }
    assert forall|i: int, j: int| 0 <= i < j < q.len() implies before(
        #[trigger] q[i],
        #[trigger] q[j],
    ) by {
        assert(pair_before(q[i], q[j]));
    }
    lemma_strict_order_unique(p, q, before);
    assert(p.len() == ranked.len() && q.len() == ranked2.len());
    assert forall|i: int| 0 <= i < ranked.len() implies (#[trigger] ranked[i]).rowid
        == ranked2[i].rowid && ranked[i].score == ranked2[i].score by {
        assert(p[i] == pair(ranked[i]) && q[i] == pair(ranked2[i]));
    }
}

/// Two lists of hits show the same documents with the same scores and fields.
pub open spec fn same_hits(left: Seq<SearchHit>, right: Seq<SearchHit>) -> bool {
    &&& left.len() == right.len()
    &&& forall|i: int|
        0 <= i < left.len() ==> (#[trigger] left[i]).rowid == right[i].rowid && left[i].score
            == right[i].score && text::texts(left[i].fields@) == text::texts(right[i].fields@)
}

/// Skipping by bounds finds exactly what a look at every document finds, where the
/// bounds are bounds or fewer documents are found than asked for.
pub proof fn pruned_equals_exhaustive<S: Scorer>(
    snapshot: Snapshot,
    query: Query,
    limit: int,
    scorer: &S,
    pruned: Seq<SearchHit>,
    exhaustive: Seq<SearchHit>,
)
    requires
        snapshot.wf(),
        snapshot.ordered(),
        limit > 0,
        scorer::functional(scorer),
        snapshot.bounds_hold(query, scorer) || pruned.len() < limit,
        snapshot.answers(query, limit, false, scorer, pruned),
        snapshot.answers(query, limit, true, scorer, exhaustive),
    ensures
        same_hits(pruned, exhaustive),
{
    let (terms, ranked) = choose|terms: Seq<Seq<char>>, ranked: Seq<RankedDoc>|
        snapshot.scoring_terms(query, terms) && #[trigger] snapshot.frame(
            query,
            terms,
            false,
            scorer,
        ).answer(ranked, limit) && search::hits_show(snapshot, ranked, pruned);
    let (terms2, ranked2) = choose|terms: Seq<Seq<char>>, ranked: Seq<RankedDoc>|
        snapshot.scoring_terms(query, terms) && #[trigger] snapshot.frame(
            query,
            terms,
            true,
            scorer,
        ).answer(ranked, limit) && search::hits_show(snapshot, ranked, exhaustive);
    scoring_terms_unique(snapshot, snapshot, query, terms, terms2);
    let left = snapshot.frame(query, terms, false, scorer);
    let right = snapshot.frame(query, terms, true, scorer);
    snapshot.lemma_frame_wf(query, terms, false, scorer);
    snapshot.lemma_frame_wf(query, terms, true, scorer);
    assert forall|rowid: i64| #[trigger] left.finds(rowid) == right.finds(rowid) by {
        if right.finds(rowid) && !left.all {
            let (s, d) = right.place(rowid);
            scoring::anchored_matches_hold_a_term(snapshot, query, None, s, d);
            let term = choose|term: Seq<char>| #[trigger]
                snapshot.segments@[s].holds(d, term) && snapshot.scores(query, term);
            assert(terms.contains(term));
            let k = choose|k: int| 0 <= k < terms.len() && terms[k] == term;
            assert(snapshot.segments@[s].holds(d, terms[k]));
            assert(left.holds_term(s, d));
        }
    }
    answers_agree(left, right, ranked, ranked2, limit);
    lemma_shown(snapshot, snapshot, ranked, ranked2, pruned, exhaustive);
}

/// Hits that show agreeing answers of snapshots with the same contents are the
/// same.
proof fn lemma_shown(
    left: Snapshot,
    right: Snapshot,
    ranked: Seq<RankedDoc>,
    ranked2: Seq<RankedDoc>,
    hits: Seq<SearchHit>,
    hits2: Seq<SearchHit>,
)
    requires
        forall|rowid: i64| #[trigger] left.content(rowid) == right.content(rowid),
        ranked.len() == ranked2.len(),
        forall|i: int|
            0 <= i < ranked.len() ==> (#[trigger] ranked[i]).rowid == ranked2[i].rowid
                && ranked[i].score == ranked2[i].score,
        search::hits_show(left, ranked, hits),
        search::hits_show(right, ranked2, hits2),
    ensures
        same_hits(hits, hits2),
{
    assert forall|i: int| 0 <= i < hits.len() implies (#[trigger] hits[i]).rowid == hits2[i].rowid
        && hits[i].score == hits2[i].score && text::texts(hits[i].fields@) == text::texts(
        hits2[i].fields@,
    ) by {
        assert(ranked[i].rowid == ranked2[i].rowid);
        assert(hits2[i].rowid == ranked2[i].rowid);
        assert(left.content(hits[i].rowid) == right.content(hits[i].rowid));
    }
}

/// Documents with the same positions and length have the same parts.
proof fn lemma_same_parts(
    left: &Segment,
    right: &Segment,
    terms: Seq<Seq<char>>,
    docid: int,
    docid2: int,
)
    requires
        left.wf(),
        right.wf(),
        left.docs@[docid].len == right.docs@[docid2].len,
        forall|term: Seq<char>| #[trigger]
            left.positions(docid, term) == right.positions(docid2, term),
    ensures
        left.parts(terms, docid) == right.parts(terms, docid2),
    decreases terms.len(),
{
    if terms.len() > 0 {
        let term = terms.last();
        lemma_same_parts(left, right, terms.drop_last(), docid, docid2);
        assert(left.positions(docid, term) == right.positions(docid2, term));
        if left.holds(docid, term) {
            left.lemma_list(term);
            right.lemma_list(term);
            let (a, b) = (left.terms.lookup(term)->0, right.terms.lookup(term)->0);
            assert(a.has_doc(docid) && b.has_doc(docid2));
            assert(a.docids@[a.index_of(docid)] == docid);
            assert(b.docids@[b.index_of(docid2)] == docid2);
            assert(a.freqs@[a.index_of(docid)] == a.positions@[a.index_of(docid)]@.len() as u32);
            assert(b.freqs@[b.index_of(docid2)] == b.positions@[b.index_of(docid2)]@.len() as u32);
        }
    }
}

/// Where the index says what the fields say, what a query finds depends on the
/// contents alone: snapshots with the same contents give the same hits, under the
/// same provisos. So compaction, and a rebuild from the log, change no result.
pub proof fn same_contents_same_hits<S: Scorer>(
    left: Snapshot,
    right: Snapshot,
    query: Query,
    limit: int,
    exhaustive: bool,
    scorer: &S,
    hits: Seq<SearchHit>,
    hits2: Seq<SearchHit>,
)
    requires
        left.wf(),
        right.wf(),
        left.ordered(),
        right.ordered(),
        left.faithful(),
        right.faithful(),
        forall|rowid: i64| #[trigger] left.content(rowid) == right.content(rowid),
        limit > 0,
        scorer::functional(scorer),
        exhaustive || left.bounds_hold(query, scorer) || hits.len() < limit,
        exhaustive || right.bounds_hold(query, scorer) || hits2.len() < limit,
        left.answers(query, limit, exhaustive, scorer, hits),
        right.answers(query, limit, exhaustive, scorer, hits2),
    ensures
        same_hits(hits, hits2),
{
    let (terms, ranked) = choose|terms: Seq<Seq<char>>, ranked: Seq<RankedDoc>|
        left.scoring_terms(query, terms) && #[trigger] left.frame(
            query,
            terms,
            exhaustive,
            scorer,
        ).answer(ranked, limit) && search::hits_show(left, ranked, hits);
    let (terms2, ranked2) = choose|terms: Seq<Seq<char>>, ranked: Seq<RankedDoc>|
        right.scoring_terms(query, terms) && #[trigger] right.frame(
            query,
            terms,
            exhaustive,
            scorer,
        ).answer(ranked, limit) && search::hits_show(right, ranked, hits2);
    assert forall|term: Seq<char>| #[trigger] left.scores(query, term) == right.scores(
        query,
        term,
    ) by {
        same_contents_same_scoring(left, right, query, true, term);
    }
    scoring_terms_unique(left, right, query, terms, terms2);
    let f = left.frame(query, terms, exhaustive, scorer);
    let g = right.frame(query, terms, exhaustive, scorer);
    left.lemma_frame_wf(query, terms, exhaustive, scorer);
    right.lemma_frame_wf(query, terms, exhaustive, scorer);
    assert forall|rowid: i64| left.content(rowid) is Some implies #[trigger] f.finds(rowid)
        == g.finds(rowid) && forall|score: u32|
        #![trigger f.rates(rowid, score)]
        f.rates(rowid, score) == g.rates(rowid, score) by {
        lemma_same_at_rowid(left, right, f, g, rowid);
    }
    assert(f.agrees(g)) by {
        assert forall|rowid: i64| #[trigger] f.finds(rowid) == g.finds(rowid) by {
            assert(left.content(rowid) == right.content(rowid));
        }
        assert forall|rowid: i64, score: u32| f.finds(rowid) implies #[trigger] f.rates(
            rowid,
            score,
        ) == g.rates(rowid, score) by {
            assert(f.finds(rowid) == g.finds(rowid));
        }
    }
    answers_agree(f, g, ranked, ranked2, limit);
    lemma_shown(left, right, ranked, ranked2, hits, hits2);
}

proof fn lemma_same_at_rowid(left: Snapshot, right: Snapshot, f: Frame, g: Frame, rowid: i64)
    requires
        left.wf(),
        right.wf(),
        left.faithful(),
        right.faithful(),
        forall|other: i64| #[trigger] left.content(other) == right.content(other),
        f.snapshot == left,
        g.snapshot == right,
        f.query == g.query,
        f.terms == g.terms,
        f.all == g.all,
        f.scored == g.scored,
        left.content(rowid) is Some,
    ensures
        f.finds(rowid) == g.finds(rowid),
        forall|score: u32|
            #![trigger f.rates(rowid, score)]
            f.rates(rowid, score) == g.rates(rowid, score),
{
    assert(right.content(rowid) == left.content(rowid));
    let (s, d) = f.place(rowid);
    let (s2, d2) = g.place(rowid);
    assert(left.latest@.contains_key(rowid) && right.latest@.contains_key(rowid));
    assert(left.live(s, d) && right.live(s2, d2));
    let (a, b) = (left.segments@[s], right.segments@[s2]);
    assert(a.wf() && b.wf() && a.faithful() && b.faithful());
    assert forall|term: Seq<char>| #[trigger] a.positions(d, term) == b.positions(d2, term) by {
        same_contents_same_positions(left, right, (s, d), (s2, d2), term);
    }
    assert(a.document(d) =~= b.document(d2)) by {
        assert forall|term: Seq<char>| #[trigger] a.document(d)(term) == b.document(d2)(term) by {
            assert(a.positions(d, term) == b.positions(d2, term));
        }
    }
    assert(f.holds_term(s, d) == g.holds_term(s2, d2)) by {
        if f.holds_term(s, d) {
            let k = choose|k: int| 0 <= k < f.terms.len() && a.holds(d, #[trigger] f.terms[k]);
            assert(a.positions(d, f.terms[k]) == b.positions(d2, f.terms[k]));
            assert(b.holds(d2, g.terms[k]));
        }
        if g.holds_term(s2, d2) {
            let k = choose|k: int| 0 <= k < g.terms.len() && b.holds(d2, #[trigger] g.terms[k]);
            assert(a.positions(d, f.terms[k]) == b.positions(d2, f.terms[k]));
            assert(a.holds(d, f.terms[k]));
        }
    }
    assert(a.docs@[d].texts() == b.docs@[d2].texts());
    assert(a.docs@[d].len == tokenizer::document_len(a.docs@[d].texts()));
    assert(b.docs@[d2].len == tokenizer::document_len(b.docs@[d2].texts()));
    lemma_same_parts(&a, &b, f.terms, d, d2);
}

/// Snapshots with the same contents count the same terms.
proof fn same_contents_same_scoring(
    left: Snapshot,
    right: Snapshot,
    query: Query,
    positive: bool,
    term: Seq<char>,
)
    requires
        left.wf(),
        right.wf(),
        left.faithful(),
        right.faithful(),
        forall|rowid: i64| #[trigger] left.content(rowid) == right.content(rowid),
    ensures
        left.collects(query, positive, term) == right.collects(query, positive, term),
    decreases query,
{
    match query {
        Query::Prefix(prefix) => {
            same_contents_same_statistics(left, right, term);
        },
        Query::Column { column, query } => {
            same_contents_same_scoring(left, right, *query, positive, term);
        },
        Query::Not(child) => {
            same_contents_same_scoring(left, right, *child, false, term);
        },
        Query::And(children) => {
            assert forall|i: int| 0 <= i < children@.len() implies left.collects(
                #[trigger] children@[i],
                positive,
                term,
            ) == right.collects(children@[i], positive, term) by {
                lemma_child_decreases(query, children@, i);
                same_contents_same_scoring(left, right, children@[i], positive, term);
            }
        },
        Query::Or(children) => {
            assert forall|i: int| 0 <= i < children@.len() implies left.collects(
                #[trigger] children@[i],
                positive,
                term,
            ) == right.collects(children@[i], positive, term) by {
                lemma_child_decreases(query, children@, i);
                same_contents_same_scoring(left, right, children@[i], positive, term);
            }
        },
        _ => {},
    }
}

} // verus!
