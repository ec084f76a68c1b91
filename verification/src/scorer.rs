//! How scores are computed: an interface that leaves the arithmetic open.
//!
//! Scores, bounds and totals are handled as the bits of floating-point numbers.
//! A search combines them only through a [`Scorer`].
use crate::packing;
use crate::ranking;
use crate::segment;
use crate::segment::{PostingList, Segment};
use crate::snapshot::Snapshot;
use vstd::prelude::*;

verus! {

/// The arithmetic of a ranking function whose score is a sum over terms. Terms
/// are named by their ordinals among the terms that count.
pub trait Scorer {
    /// The score of a document before any term is counted.
    fn start(&self) -> u32;

    /// The score after a term that stands `freq` times in a document of
    /// `doc_len` terms is counted too.
    fn add_term(&self, score: u32, ordinal: usize, freq: u32, doc_len: u32) -> u32;

    /// A bound on what the term adds to any document in which it stands at most
    /// `max_tf` times and which has at least `min_doc_len` terms. The bound may be
    /// rounded up on the scale of the whole list, which `list_tf` and `list_len`
    /// describe in the same way.
    fn bound(
        &self,
        ordinal: usize,
        list_tf: u32,
        list_len: u32,
        max_tf: u32,
        min_doc_len: u32,
    ) -> u32;

    /// A running total of bounds, with one more bound. Totals start from zero.
    fn join(&self, total: u64, bound: u32) -> u64;

    /// Whether a total of bounds is at least `score`.
    fn reaches(&self, total: u64, score: u32) -> bool;

    /// Whether a total of bounds is below `score`.
    fn below(&self, total: u64, score: u32) -> bool;
}

/// What one term contributes to the score of a document.
pub struct Part {
    pub ordinal: usize,
    pub freq: u32,
    pub doc_len: u32,
}

/// Whether `score` is what the scorer makes of these parts, in order.
pub open spec fn scored<S: Scorer>(scorer: &S, parts: Seq<Part>, score: u32) -> bool
    decreases parts.len(),
{
    if parts.len() == 0 {
        call_ensures(S::start, (scorer,), score)
    } else {
        exists|before: u32|
            scored(scorer, parts.drop_last(), before) && #[trigger] call_ensures(
                S::add_term,
                (scorer, before, parts.last().ordinal, parts.last().freq, parts.last().doc_len),
                score,
            )
    }
}

/// Which scores the scorer makes of given parts.
pub open spec fn scoring<S: Scorer>(scorer: &S) -> spec_fn(Seq<Part>, u32) -> bool {
    |parts: Seq<Part>, score: u32| scored(scorer, parts, score)
}

/// Whether `total` is what the scorer makes of these bounds, in order.
pub open spec fn joined<S: Scorer>(scorer: &S, bounds: Seq<u32>, total: u64) -> bool
    decreases bounds.len(),
{
    if bounds.len() == 0 {
        total == 0
    } else {
        exists|before: u64|
            joined(scorer, bounds.drop_last(), before) && #[trigger] call_ensures(
                S::join,
                (scorer, before, bounds.last()),
                total,
            )
    }
}

/// Whether the scorer gave `bound` for lists and blocks that the part fits into.
pub open spec fn bounds_part<S: Scorer>(scorer: &S, part: Part, bound: u32) -> bool {
    exists|list_tf: u32, list_len: u32, max_tf: u32, min_doc_len: u32|
        part.freq <= list_tf && part.freq <= max_tf && list_len <= part.doc_len && min_doc_len
            <= part.doc_len && #[trigger] call_ensures(
            S::bound,
            (scorer, part.ordinal, list_tf, list_len, max_tf, min_doc_len),
            bound,
        )
}

/// Whether each part is bounded by a bound of its own: part `i` by bound `via[i]`.
pub open spec fn covered<S: Scorer>(
    scorer: &S,
    parts: Seq<Part>,
    bounds: Seq<u32>,
    via: Seq<int>,
) -> bool {
    &&& via.len() == parts.len()
    &&& forall|i: int|
        0 <= i < parts.len() ==> 0 <= #[trigger] via[i] < bounds.len() && bounds_part(
            scorer,
            parts[i],
            bounds[via[i]],
        )
    &&& forall|i: int, j: int|
        0 <= i < j < parts.len() ==> #[trigger] via[i] != #[trigger] via[j]
}

/// The scorer gives one score for the same parts.
pub open spec fn functional<S: Scorer>(scorer: &S) -> bool {
    &&& forall|a: u32, b: u32|
        #![trigger call_ensures(S::start, (scorer,), a), call_ensures(S::start, (scorer,), b)]
        call_ensures(S::start, (scorer,), a) && call_ensures(S::start, (scorer,), b) ==> a == b
    &&& forall|score: u32, ordinal: usize, freq: u32, doc_len: u32, a: u32, b: u32|
        #![trigger call_ensures(S::add_term, (scorer, score, ordinal, freq, doc_len), a), call_ensures(S::add_term, (scorer, score, ordinal, freq, doc_len), b)]
        call_ensures(S::add_term, (scorer, score, ordinal, freq, doc_len), a) && call_ensures(
            S::add_term,
            (scorer, score, ordinal, freq, doc_len),
            b,
        ) ==> a == b
}

/// Whether the scorer gave `bound` for a posting list of the term with this ordinal,
/// or for one block of the list.
pub open spec fn bounds_list<S: Scorer>(
    scorer: &S,
    list: PostingList,
    ordinal: usize,
    bound: u32,
) -> bool {
    ||| call_ensures(
        S::bound,
        (scorer, ordinal, list.max_tf, list.min_doc_len, list.max_tf, list.min_doc_len),
        bound,
    )
    ||| exists|block: int|
        0 <= block < list.blocks@.len() && call_ensures(
            S::bound,
            (
                scorer,
                ordinal,
                list.max_tf,
                list.min_doc_len,
                (#[trigger] list.blocks@[block]).max_tf,
                list.blocks@[block].min_doc_len,
            ),
            bound,
        )
}

/// Whether the scorer gave `bound` for the list that the segment keeps of the term
/// with this ordinal.
pub open spec fn bounds_term<S: Scorer>(
    scorer: &S,
    built: &Segment,
    terms: Seq<Seq<char>>,
    ordinal: usize,
    bound: u32,
) -> bool {
    &&& ordinal < terms.len()
    &&& built.terms.lookup(terms[ordinal as int]) matches Some(list) && bounds_list(
        scorer,
        list,
        ordinal,
        bound,
    )
}

/// Whether the scorer gave `bound` for a list that the segment keeps of a term that
/// counts.
pub open spec fn bounds_some_term<S: Scorer>(
    scorer: &S,
    built: &Segment,
    terms: Seq<Seq<char>>,
    bound: u32,
) -> bool {
    exists|ordinal: usize| bounds_term(scorer, built, terms, ordinal, bound)
}

/// Whether the scorer gave each of the bounds for a list that the segment keeps of a
/// term that counts.
pub open spec fn bounds_given<S: Scorer>(
    scorer: &S,
    built: &Segment,
    terms: Seq<Seq<char>>,
    bounds: Seq<u32>,
) -> bool {
    forall|i: int|
        0 <= i < bounds.len() ==> bounds_some_term(scorer, built, terms, #[trigger] bounds[i])
}

/// Whether a document that stands before this place has the score.
pub open spec fn scored_before<S: Scorer>(
    scorer: &S,
    snapshot: Snapshot,
    terms: Seq<Seq<char>>,
    segment: int,
    docid: int,
    score: u32,
) -> bool {
    exists|s: int, d: int|
        snapshot.in_range(s, d) && (s < segment || (s == segment && d < docid)) && scored(
            scorer,
            #[trigger] snapshot.segments@[s].parts(terms, d),
            score,
        )
}

/// For the documents of a snapshot and the terms that count: where a total of bounds
/// that the scorer gave for lists of the document's segment does not reach the score
/// of a document before it, no score of the document whose parts the bounds cover
/// does.
#[verifier::opaque]
pub open spec fn admissible<S: Scorer>(
    scorer: &S,
    snapshot: Snapshot,
    terms: Seq<Seq<char>>,
) -> bool {
    forall|
        segment: int,
        docid: int,
        parts: Seq<Part>,
        score: u32,
        bounds: Seq<u32>,
        via: Seq<int>,
        total: u64,
        theta: u32,
    |
        #![trigger snapshot.segments@[segment].some_parts(terms, docid, parts), scored(scorer, parts, score), covered(scorer, parts, bounds, via), joined(scorer, bounds, total), ranking::score_key(theta)]
        snapshot.in_range(segment, docid) && snapshot.segments@[segment].some_parts(
            terms,
            docid,
            parts,
        ) && scored(scorer, parts, score) && covered(scorer, parts, bounds, via) && joined(
            scorer,
            bounds,
            total,
        ) && bounds_given(scorer, &snapshot.segments@[segment], terms, bounds) && scored_before(
            scorer,
            snapshot,
            terms,
            segment,
            docid,
            theta,
        ) && (call_ensures(S::reaches, (scorer, total, theta), false) || call_ensures(
            S::below,
            (scorer, total, theta),
            true,
        )) ==> ranking::score_key(score) < ranking::score_key(theta)
}

/// A functional scorer gives one score for the same parts.
pub proof fn functional_scores_agree<S: Scorer>(scorer: &S, parts: Seq<Part>, a: u32, b: u32)
    requires
        functional(scorer),
        scored(scorer, parts, a),
        scored(scorer, parts, b),
    ensures
        a == b,
    decreases parts.len(),
{
    if parts.len() > 0 {
        let x = choose|before: u32|
            scored(scorer, parts.drop_last(), before) && #[trigger] call_ensures(
                S::add_term,
                (scorer, before, parts.last().ordinal, parts.last().freq, parts.last().doc_len),
                a,
            );
        let y = choose|before: u32|
            scored(scorer, parts.drop_last(), before) && #[trigger] call_ensures(
                S::add_term,
                (scorer, before, parts.last().ordinal, parts.last().freq, parts.last().doc_len),
                b,
            );
        functional_scores_agree(scorer, parts.drop_last(), x, y);
    }
}

impl Segment {
    /// How often `term` stands in document `docid`, as the postings count it.
    pub open spec fn freq(&self, docid: int, term: Seq<char>) -> u32 {
        match self.terms.lookup(term) {
            Some(list) => list.freqs@[list.index_of(docid)],
            None => 0,
        }
    }

    /// What the term with this ordinal contributes to document `docid`.
    pub open spec fn part(&self, terms: Seq<Seq<char>>, docid: int, ordinal: int) -> Part {
        Part {
            ordinal: ordinal as usize,
            freq: self.freq(docid, terms[ordinal]),
            doc_len: self.docs@[docid].len,
        }
    }

    /// The contributions of all of `terms` that document `docid` holds.
    pub open spec fn parts(&self, terms: Seq<Seq<char>>, docid: int) -> Seq<Part>
        decreases terms.len(),
    {
        if terms.len() == 0 {
            Seq::empty()
        } else {
            let before = self.parts(terms.drop_last(), docid);
            if self.holds(docid, terms.last()) {
                before.push(self.part(terms, docid, terms.len() - 1))
            } else {
                before
            }
        }
    }

    /// Whether `parts` are contributions of some of `terms` to document `docid`.
    pub open spec fn some_parts(&self,
        terms: Seq<Seq<char>>,
        docid: int,
        parts: Seq<Part>,
    ) -> bool {
        &&& forall|i: int|
            0 <= i < parts.len() ==> {
                let ordinal = (#[trigger] parts[i]).ordinal as int;
                &&& ordinal < terms.len()
                &&& self.holds(docid, terms[ordinal])
                &&& parts[i] == self.part(terms, docid, ordinal)
            }
        &&& forall|i: int, j: int|
            0 <= i < j < parts.len() ==> (#[trigger] parts[i]).ordinal < (
            #[trigger] parts[j]).ordinal
    }

    /// All the parts are some of the parts.
    pub proof fn lemma_parts(&self, terms: Seq<Seq<char>>, docid: int)
        requires
            terms.len() <= usize::MAX,
        ensures
            self.some_parts(terms, docid, self.parts(terms, docid)),
            forall|i: int|
                0 <= i < self.parts(terms, docid).len() ==> (#[trigger] self.parts(
                    terms,
                    docid,
                )[i]).ordinal < terms.len(),
        decreases terms.len(),
    {
        if terms.len() > 0 {
            let front = terms.drop_last();
            self.lemma_parts(front, docid);
            let before = self.parts(front, docid);
            let parts = self.parts(terms, docid);
            assert(forall|i: int| 0 <= i < before.len() ==> parts[i] == before[i]);
            assert forall|i: int| 0 <= i < parts.len() implies {
                let ordinal = (#[trigger] parts[i]).ordinal as int;
                &&& ordinal < terms.len()
                &&& self.holds(docid, terms[ordinal])
                &&& parts[i] == self.part(terms, docid, ordinal)
            } by {
                if i < before.len() {
                    let ordinal = before[i].ordinal as int;
                    assert(front[ordinal] == terms[ordinal]);
                }
            }
        }
    }
}

/// A posting fits into the bounds of its list.
pub proof fn posting_within_list(segment: &Segment, terms: Seq<Seq<char>>, docid: int, ordinal: int)
    requires
        segment.wf(),
        0 <= ordinal < terms.len(),
        segment.holds(docid, terms[ordinal]),
    ensures
        ({
            let list = segment.terms.lookup(terms[ordinal])->0;
            let part = segment.part(terms, docid, ordinal);
            &&& segment.terms.lookup(terms[ordinal]) is Some
            &&& part.freq <= list.max_tf
            &&& list.min_doc_len <= part.doc_len
        }),
{
    let term = terms[ordinal];
    segment.lemma_list(term);
    let list = segment.terms.lookup(term)->0;
    assert(list.has_doc(docid));
    let at = list.index_of(docid);
    assert(list.docids@[at] == docid);
    packing::largest_bounds(list.freqs@);
    let lens = segment::doc_lens(list.docids@, segment.docs@);
    segment::smallest_bounds(lens);
    assert(lens[at] == segment.docs@[docid].len);
    assert(list.freqs@[at] <= packing::largest(list.freqs@));
}

/// A posting fits into the bounds of its block.
pub proof fn posting_within_block(
    segment: &Segment,
    terms: Seq<Seq<char>>,
    docid: int,
    ordinal: int,
    at: int,
)
    requires
        segment.wf(),
        0 <= ordinal < terms.len(),
        segment.terms.lookup(terms[ordinal]) is Some,
        0 <= at < segment.terms.lookup(terms[ordinal])->0.docids@.len(),
        segment.terms.lookup(terms[ordinal])->0.docids@[at] == docid,
    ensures
        ({
            let list = segment.terms.lookup(terms[ordinal])->0;
            let part = segment.part(terms, docid, ordinal);
            &&& at / 128 < list.blocks@.len()
            &&& part.freq <= list.blocks@[at / 128].max_tf
            &&& list.blocks@[at / 128].min_doc_len <= part.doc_len
        }),
{
    let term = terms[ordinal];
    segment.lemma_list(term);
    let list = segment.terms.lookup(term)->0;
    list.lemma_index_of(at);
    let block = at / 128;
    let (start, end) = (block * 128, segment::block_end(block, list.docids@.len()));
    assert(list.blocks@[block] == segment::block_meta(
        list.docids@,
        list.freqs@,
        segment.docs@,
        block,
    ));
    let freqs = list.freqs@.subrange(start, end);
    packing::largest_bounds(freqs);
    assert(freqs[at - start] == list.freqs@[at]);
    let lens = segment::doc_lens(list.docids@, segment.docs@).subrange(start, end);
    segment::smallest_bounds(lens);
    assert(lens[at - start] == segment.docs@[docid].len);
}

} // verus!
