//! An immutable batch of documents with its inverted index.
use crate::packing;
use crate::text;
use crate::text::TermMap;
use crate::tokenizer;
use crate::tokenizer::{group_positions, tokenize_fields};
use vstd::prelude::*;

verus! {

/// How many postings share one block of metadata.
pub const POSTING_BLOCK_SIZE: usize = 128;

/// A document as it was written, with what the index derived from it.
#[derive(Debug)]
pub struct StoredDocument {
    pub rowid: i64,
    pub fields: Vec<String>,
    pub len: u32,
    pub unique_terms: Vec<String>,
}

/// What is known of a run of postings without reading them.
#[derive(Clone, Copy, Debug, PartialEq, Eq, Structural)]
pub struct BlockMeta {
    pub end: u32,
    pub last_docid: u32,
    pub max_tf: u32,
    pub min_doc_len: u32,
}

/// The documents that hold a term, with how often and where.
#[derive(Debug)]
pub struct PostingList {
    /// Hot matching stream.
    pub docids: Vec<u32>,
    /// Hot scoring stream, physically separate from positions.
    pub freqs: Vec<u32>,
    /// Cold phrase stream; only accessed during positional verification.
    pub positions: Vec<Vec<u32>>,
    pub blocks: Vec<BlockMeta>,
    pub max_tf: u32,
    pub min_doc_len: u32,
}

/// Documents and, for each term, its postings.
#[derive(Debug)]
pub struct Segment {
    pub docs: Vec<StoredDocument>,
    pub terms: TermMap<PostingList>,
}

/// The smallest of `values`, zero if there are none.
pub open spec fn smallest(values: Seq<u32>) -> u32
    decreases values.len(),
{
    if values.len() == 0 {
        0
    } else if values.len() == 1 {
        values[0]
    } else {
        let before = smallest(values.drop_last());
        if values.last() < before {
            values.last()
        } else {
            before
        }
    }
}

/// The lengths of the documents with these docids.
pub open spec fn doc_lens(docids: Seq<u32>, docs: Seq<StoredDocument>) -> Seq<u32> {
    Seq::new(docids.len(), |i: int| docs[docids[i] as int].len)
}

/// How many blocks hold `postings` postings.
pub open spec fn block_count(postings: nat) -> nat {
    (postings + 127) as nat / 128
}

/// Where block `block` of a list of `postings` postings ends.
pub open spec fn block_end(block: int, postings: nat) -> int {
    if (block + 1) * 128 < postings {
        (block + 1) * 128
    } else {
        postings as int
    }
}

/// The metadata of block `block`.
pub open spec fn block_meta(
    docids: Seq<u32>,
    freqs: Seq<u32>,
    docs: Seq<StoredDocument>,
    block: int,
) -> BlockMeta {
    let start = block * 128;
    let end = block_end(block, docids.len());
    BlockMeta {
        end: end as u32,
        last_docid: docids[end - 1],
        max_tf: packing::largest(freqs.subrange(start, end)),
        min_doc_len: smallest(doc_lens(docids, docs).subrange(start, end)),
    }
}

/// The values stand in order; a value may stand twice.
pub open spec fn ascending(values: Seq<u32>) -> bool {
    forall|i: int, j: int| 0 <= i < j < values.len() ==> #[trigger] values[i] <= #[trigger] values[j]
}

/// The values stand in order, each once.
pub open spec fn increasing(values: Seq<u32>) -> bool {
    forall|i: int, j: int| 0 <= i < j < values.len() ==> #[trigger] values[i] < #[trigger] values[j]
}

impl PostingList {
    /// The three streams describe the same postings of documents among `docs`.
    pub open spec fn streams_wf(self, docs: Seq<StoredDocument>) -> bool {
        &&& self.docids@.len() > 0
        &&& self.freqs@.len() == self.docids@.len()
        &&& self.positions@.len() == self.docids@.len()
        &&& increasing(self.docids@)
        &&& forall|i: int| 0 <= i < self.docids@.len() ==> #[trigger] self.docids@[i] < docs.len()
        &&& forall|i: int|
            0 <= i < self.docids@.len() ==> (#[trigger] self.positions@[i])@.len() > 0
                && self.freqs@[i] == self.positions@[i]@.len() as u32
    }

    /// The blocks and bounds say of the streams what they should.
    pub open spec fn blocks_wf(self, docs: Seq<StoredDocument>) -> bool {
        &&& self.blocks@.len() == block_count(self.docids@.len())
        &&& forall|k: int|
            0 <= k < self.blocks@.len() ==> #[trigger] self.blocks@[k] == block_meta(
                self.docids@,
                self.freqs@,
                docs,
                k,
            )
        &&& self.max_tf == packing::largest(self.freqs@)
        &&& self.min_doc_len == smallest(doc_lens(self.docids@, docs))
    }

    pub open spec fn wf(self, docs: Seq<StoredDocument>) -> bool {
        self.streams_wf(docs) && self.blocks_wf(docs)
    }

    pub open spec fn has_doc(self, docid: int) -> bool {
        exists|i: int| 0 <= i < self.docids@.len() && #[trigger] self.docids@[i] == docid
    }

    /// Where `docid` stands in the list.
    pub open spec fn index_of(self, docid: int) -> int {
        choose|i: int| 0 <= i < self.docids@.len() && #[trigger] self.docids@[i] == docid
    }

    /// The positions of each document stand in order.
    pub open spec fn ordered(self) -> bool {
        forall|i: int| 0 <= i < self.positions@.len() ==> ascending((#[trigger] self.positions@[i])@)
    }

    /// In a list without repetitions a docid has one place.
    pub proof fn lemma_index_of(self, index: int)
        requires
            increasing(self.docids@),
            0 <= index < self.docids@.len(),
        ensures
            self.has_doc(self.docids@[index] as int),
            self.index_of(self.docids@[index] as int) == index,
    {
        let docid = self.docids@[index] as int;
        let other = self.index_of(docid);
        assert(self.docids@[index] == docid);
        assert(self.docids@[other] == docid);
    }
}

impl StoredDocument {
    /// The characters of the fields.
    pub open spec fn texts(self) -> Seq<Seq<char>> {
        text::texts(self.fields@)
    }

    /// Whether `term` is among the document's terms.
    pub open spec fn lists(self, term: Seq<char>) -> bool {
        text::texts(self.unique_terms@).contains(term)
    }
}

impl Segment {
    /// Where `term` stands in document `docid`, in order; empty if nowhere.
    pub open spec fn positions(&self, docid: int, term: Seq<char>) -> Seq<u32> {
        match self.terms.lookup(term) {
            Some(list) => if list.has_doc(docid) {
                list.positions@[list.index_of(docid)]@
            } else {
                Seq::empty()
            },
            None => Seq::empty(),
        }
    }

    /// Whether document `docid` holds `term`.
    pub open spec fn holds(&self, docid: int, term: Seq<char>) -> bool {
        self.positions(docid, term).len() > 0
    }

    /// The index is sound in itself, and each document lists its terms once.
    pub open spec fn wf(&self) -> bool {
        &&& self.docs@.len() <= u32::MAX
        &&& self.terms.wf()
        &&& forall|t: int|
            0 <= t < self.terms.spec_len() ==> (#[trigger] self.terms.value(t)).wf(self.docs@)
        &&& forall|d: int|
            0 <= d < self.docs@.len() ==> text::texts(
                (#[trigger] self.docs@[d]).unique_terms@,
            ).no_duplicates()
        &&& forall|d: int, term: Seq<char>|
            0 <= d < self.docs@.len() ==> (#[trigger] self.docs@[d].lists(term) == self.holds(
                d,
                term,
            ))
    }

    /// The positions of every posting stand in order.
    pub open spec fn ordered(&self) -> bool {
        forall|t: int| 0 <= t < self.terms.spec_len() ==> (#[trigger] self.terms.value(t)).ordered()
    }

    /// The index says exactly what the fields of the documents say.
    pub open spec fn faithful(&self) -> bool {
        &&& forall|d: int|
            0 <= d < self.docs@.len() ==> (#[trigger] self.docs@[d]).len == tokenizer::document_len(
                self.docs@[d].texts(),
            )
        &&& forall|d: int, term: Seq<char>|
            0 <= d < self.docs@.len() ==> #[trigger] self.positions(d, term)
                == tokenizer::term_occurrences(self.docs@[d].texts(), term)
    }

    /// A posting list of a well-formed segment, looked up by its term.
    pub proof fn lemma_list(&self, term: Seq<char>)
        requires
            self.wf(),
            self.terms.has(term),
        ensures
            self.terms.lookup(term) is Some,
            self.terms.lookup(term)->0.wf(self.docs@),
            self.ordered() ==> self.terms.lookup(term)->0.ordered(),
            forall|d: int|
                #[trigger] self.holds(d, term) == self.terms.lookup(term)->0.has_doc(d),
    {
        let at = self.terms.position(term);
        assert(self.terms.key(at) == term);
        assert(self.terms.value(at).wf(self.docs@));
        let list = self.terms.lookup(term)->0;
        assert forall|d: int| #[trigger] self.holds(d, term) == list.has_doc(d) by {
            if list.has_doc(d) {
                let index = list.index_of(d);
                assert(list.docids@[index] == d);
                assert(list.positions@[index]@.len() > 0);
            }
        }
    }
}

/// The smallest value is among the values, and no value is below it.
pub proof fn smallest_bounds(values: Seq<u32>)
    ensures
        forall|i: int| 0 <= i < values.len() ==> smallest(values) <= #[trigger] values[i],
        values.len() > 0 ==> values.contains(smallest(values)),
    decreases values.len(),
{
    if values.len() == 1 {
        assert(values[0] == smallest(values));
    } else if values.len() > 1 {
        let front = values.drop_last();
        smallest_bounds(front);
        assert(front.contains(smallest(front)));
        let at = choose|i: int| 0 <= i < front.len() && front[i] == smallest(front);
        assert(values[at] == smallest(front));
        assert(values[values.len() - 1] == values.last());
        assert forall|i: int| 0 <= i < values.len() implies smallest(values)
            <= #[trigger] values[i] by {
            if i < values.len() - 1 {
                assert(front[i] == values[i]);
            }
        }
    }
}

/// `smallest` and `largest` of a longer run.
proof fn lemma_extend_run(values: Seq<u32>, start: int, end: int)
    requires
        0 <= start <= end < values.len(),
    ensures
        packing::largest(values.subrange(start, end + 1)) == if packing::largest(
            values.subrange(start, end),
        ) < values[end] {
            values[end]
        } else {
            packing::largest(values.subrange(start, end))
        },
        smallest(values.subrange(start, end + 1)) == if start == end || values[end] < smallest(
            values.subrange(start, end),
        ) {
            values[end]
        } else {
            smallest(values.subrange(start, end))
        },
{
    let longer = values.subrange(start, end + 1);
    assert(longer.drop_last() =~= values.subrange(start, end));
    assert(longer.last() == values[end]);
}

/// The largest of `values[start..end]`.
pub fn max_of(values: &Vec<u32>, start: usize, end: usize) -> (max: u32)
    requires
        start <= end <= values@.len(),
    ensures
        max == packing::largest(values@.subrange(start as int, end as int)),
{
    let mut max: u32 = 0;
    let mut index: usize = start;
    while index < end
        invariant
            start <= index <= end <= values@.len(),
            max == packing::largest(values@.subrange(start as int, index as int)),
        decreases end - index,
    {
        proof {
            lemma_extend_run(values@, start as int, index as int);
        }
        if max < values[index] {
            max = values[index];
        }
        index = index + 1;
    }
    max
}

/// The smallest length of the documents `docids[start..end]`.
pub fn min_doc_len_of(
    docids: &Vec<u32>,
    docs: &Vec<StoredDocument>,
    start: usize,
    end: usize,
) -> (min: u32)
    requires
        start <= end <= docids@.len(),
        forall|i: int| 0 <= i < docids@.len() ==> #[trigger] docids@[i] < docs@.len(),
    ensures
        min == smallest(doc_lens(docids@, docs@).subrange(start as int, end as int)),
{
    let ghost lens = doc_lens(docids@, docs@);
    let mut min: u32 = 0;
    let mut index: usize = start;
    while index < end
        invariant
            start <= index <= end <= docids@.len(),
            forall|i: int| 0 <= i < docids@.len() ==> #[trigger] docids@[i] < docs@.len(),
            lens == doc_lens(docids@, docs@),
            min == smallest(lens.subrange(start as int, index as int)),
        decreases end - index,
    {
        proof {
            lemma_extend_run(lens, start as int, index as int);
        }
        let len: u32 = docs[docids[index] as usize].len;
        if index == start || len < min {
            min = len;
        }
        index = index + 1;
    }
    min
}

/// A list of increasing docids below `docs` has at most `docs` of them.
pub proof fn increasing_bound(docids: Seq<u32>, docs: int)
    requires
        increasing(docids),
        docs >= 0,
        forall|i: int| 0 <= i < docids.len() ==> #[trigger] docids[i] < docs,
    ensures
        docids.len() <= docs,
        forall|i: int| 0 <= i < docids.len() ==> i <= #[trigger] docids[i],
    decreases docids.len(),
{
    if docids.len() > 0 {
        let front = docids.drop_last();
        let last = docids[docids.len() - 1] as int;
        assert(forall|i: int| 0 <= i < front.len() ==> front[i] == docids[i]);
        increasing_bound(front, last);
    }
}

impl PostingList {
    /// A list without postings.
    pub fn new() -> (list: Self)
        ensures
            list.docids@.len() == 0,
            list.freqs@.len() == 0,
            list.positions@.len() == 0,
            list.blocks@.len() == 0,
            list.max_tf == 0,
            list.min_doc_len == 0,
    {
        PostingList {
            docids: Vec::new(),
            freqs: Vec::new(),
            positions: Vec::new(),
            blocks: Vec::new(),
            max_tf: 0,
            min_doc_len: 0,
        }
    }

    /// Derives the bounds and the blocks from finished streams.
    pub fn finish_blocks(&mut self, docs: &Vec<StoredDocument>)
        requires
            old(self).freqs@.len() == old(self).docids@.len() <= u32::MAX,
            forall|i: int|
                0 <= i < old(self).docids@.len() ==> #[trigger] old(self).docids@[i] < docs@.len(),
            old(self).blocks@.len() == 0,
        ensures
            final(self).docids@ == old(self).docids@,
            final(self).freqs@ == old(self).freqs@,
            final(self).positions@ == old(self).positions@,
            final(self).blocks_wf(docs@),
    {
        let count: usize = self.docids.len();
        proof {
            assert(self.freqs@.subrange(0, count as int) =~= self.freqs@);
            assert(doc_lens(self.docids@, docs@).subrange(0, count as int) =~= doc_lens(
                self.docids@,
                docs@,
            ));
        }
        self.max_tf = max_of(&self.freqs, 0, count);
        self.min_doc_len = min_doc_len_of(&self.docids, docs, 0, count);
        let ghost before = *self;
        let mut start: usize = 0;
        while start < count
            invariant
                count == self.docids@.len() == self.freqs@.len(),
                count <= u32::MAX,
                start == self.blocks@.len() * 128 || start == count,
                start <= count,
                start == count ==> self.blocks@.len() == block_count(count as nat),
                self.docids == before.docids,
                self.freqs == before.freqs,
                self.positions == before.positions,
                self.max_tf == before.max_tf,
                self.min_doc_len == before.min_doc_len,
                forall|i: int|
                    0 <= i < self.docids@.len() ==> #[trigger] self.docids@[i] < docs@.len(),
                forall|k: int|
                    0 <= k < self.blocks@.len() ==> #[trigger] self.blocks@[k] == block_meta(
                        before.docids@,
                        before.freqs@,
                        docs@,
                        k,
                    ),
            decreases count - start,
        {
            let end: usize = if count - start > POSTING_BLOCK_SIZE {
                start + POSTING_BLOCK_SIZE
            } else {
                count
            };
            let block = BlockMeta {
                end: end as u32,
                last_docid: self.docids[end - 1],
                max_tf: max_of(&self.freqs, start, end),
                min_doc_len: min_doc_len_of(&self.docids, docs, start, end),
            };
            self.blocks.push(block);
            start = end;
        }
    }

    /// Where `docid` stands in the list, if it does.
    pub fn find(&self, docid: u32) -> (index: Option<usize>)
        requires
            increasing(self.docids@),
        ensures
            match index {
                Some(index) => index < self.docids@.len() && self.docids@[index as int] == docid
                    && self.has_doc(docid as int) && self.index_of(docid as int) == index,
                None => !self.has_doc(docid as int),
            },
    {
        let mut low: usize = 0;
        let mut high: usize = self.docids.len();
        while low < high
            invariant
                low <= high <= self.docids@.len(),
                increasing(self.docids@),
                forall|i: int| 0 <= i < low ==> #[trigger] self.docids@[i] < docid,
                forall|i: int| high <= i < self.docids@.len() ==> docid < #[trigger] self.docids@[i],
            decreases high - low,
        {
            let middle: usize = low + (high - low) / 2;
            let found: u32 = self.docids[middle];
            if found == docid {
                proof {
                    self.lemma_index_of(middle as int);
                }
                return Some(middle);
            }
            if found < docid {
                low = middle + 1;
            } else {
                high = middle;
            }
        }
        None
    }
}

/// The postings of `term` in `docs`: for each document that holds it, the docid
/// and the positions.
pub open spec fn postings(docs: Seq<StoredDocument>, term: Seq<char>) -> Seq<(u32, Seq<u32>)>
    decreases docs.len(),
{
    if docs.len() == 0 {
        Seq::empty()
    } else {
        let before = postings(docs.drop_last(), term);
        let found = tokenizer::term_occurrences(docs.last().texts(), term);
        if found.len() > 0 {
            before.push(((docs.len() - 1) as u32, found))
        } else {
            before
        }
    }
}

/// The streams of `list` are these postings.
spec fn carries(list: PostingList, entries: Seq<(u32, Seq<u32>)>) -> bool {
    &&& list.docids@.len() == entries.len()
    &&& list.freqs@.len() == entries.len()
    &&& list.positions@.len() == entries.len()
    &&& list.blocks@.len() == 0
    &&& forall|i: int|
        0 <= i < entries.len() ==> list.docids@[i] == (#[trigger] entries[i]).0
            && list.positions@[i]@ == entries[i].1 && list.freqs@[i] == entries[i].1.len() as u32
}

/// A finished list holds these postings, and there are some.
spec fn agrees(list: PostingList, entries: Seq<(u32, Seq<u32>)>) -> bool {
    &&& entries.len() > 0
    &&& list.docids@.len() == entries.len()
    &&& forall|i: int|
        0 <= i < entries.len() ==> list.docids@[i] == (#[trigger] entries[i]).0
            && list.positions@[i]@ == entries[i].1
}

/// The unfinished index holds these postings for `term`.
spec fn term_carries(
    terms: TermMap<PostingList>,
    term: Seq<char>,
    entries: Seq<(u32, Seq<u32>)>,
) -> bool {
    match terms.lookup(term) {
        Some(list) => entries.len() > 0 && carries(list, entries),
        None => entries.len() == 0,
    }
}

/// The unfinished index holds the postings of `term` in `docs`, or in all but
/// the last of them while `term` is among the first `left` terms of that one.
spec fn term_added(
    terms: TermMap<PostingList>,
    term: Seq<char>,
    docs: Seq<StoredDocument>,
    last: TermMap<Vec<u32>>,
    left: int,
) -> bool {
    term_carries(
        terms,
        term,
        if last.has(term) && last.position(term) >= left {
            postings(docs, term)
        } else {
            postings(docs.drop_last(), term)
        },
    )
}

proof fn lemma_postings(docs: Seq<StoredDocument>, term: Seq<char>)
    requires
        docs.len() <= u32::MAX,
    ensures
        postings(docs, term).len() <= docs.len(),
        forall|i: int|
            0 <= i < postings(docs, term).len() ==> {
                let entry = #[trigger] postings(docs, term)[i];
                &&& entry.0 < docs.len()
                &&& entry.1 == tokenizer::term_occurrences(docs[entry.0 as int].texts(), term)
                &&& entry.1.len() > 0
            },
        forall|i: int, j: int|
            0 <= i < j < postings(docs, term).len() ==> (#[trigger] postings(docs, term)[i]).0
                < (#[trigger] postings(docs, term)[j]).0,
        forall|d: int|
            0 <= d < docs.len() && tokenizer::term_occurrences(
                (#[trigger] docs[d]).texts(),
                term,
            ).len() > 0 ==> exists|i: int|
                0 <= i < postings(docs, term).len() && (#[trigger] postings(docs, term)[i]).0 == d,
    decreases docs.len(),
{
    if docs.len() > 0 {
        let front = docs.drop_last();
        lemma_postings(front, term);
        let before = postings(front, term);
        let all = postings(docs, term);
        assert(forall|d: int| 0 <= d < front.len() ==> front[d] == docs[d]);
        assert(forall|i: int| 0 <= i < before.len() ==> all[i] == before[i]);
        assert forall|d: int|
            0 <= d < docs.len() && tokenizer::term_occurrences(
                (#[trigger] docs[d]).texts(),
                term,
            ).len() > 0 implies exists|i: int|
            0 <= i < all.len() && (#[trigger] all[i]).0 == d by {
            if d < front.len() {
                assert(front[d] == docs[d]);
                let i = choose|i: int| 0 <= i < before.len() && (#[trigger] before[i]).0 == d;
                assert(all[i].0 == d);
            } else {
                assert(all[before.len() as int].0 == d);
            }
        }
    }
}

/// The index of the finished segment says what the fields say.
proof fn lemma_built(segment: Segment)
    requires
        segment.docs@.len() <= u32::MAX,
        segment.terms.wf(),
        forall|t: int|
            0 <= t < segment.terms.spec_len() ==> agrees(
                #[trigger] segment.terms.value(t),
                postings(segment.docs@, segment.terms.key(t)),
            ),
        forall|term: Seq<char>|
            !(#[trigger] segment.terms.has(term)) ==> postings(segment.docs@, term).len() == 0,
    ensures
        forall|d: int, term: Seq<char>|
            0 <= d < segment.docs@.len() ==> #[trigger] segment.positions(d, term)
                == tokenizer::term_occurrences(segment.docs@[d].texts(), term),
{
    assert forall|d: int, term: Seq<char>|
        0 <= d < segment.docs@.len() implies #[trigger] segment.positions(d, term)
        == tokenizer::term_occurrences(segment.docs@[d].texts(), term) by {
        lemma_postings(segment.docs@, term);
        let entries = postings(segment.docs@, term);
        let found = tokenizer::term_occurrences(segment.docs@[d].texts(), term);
        if segment.terms.has(term) {
            let t = segment.terms.position(term);
            assert(segment.terms.key(t) == term);
            let list = segment.terms.value(t);
            if list.has_doc(d) {
                let index = list.index_of(d);
                assert(list.docids@[index] == d);
                assert(entries[index].0 == d);
            } else if found.len() > 0 {
                let index = choose|i: int| 0 <= i < entries.len() && (#[trigger] entries[i]).0 == d;
                assert(list.docids@[index] == d);
            } else {
                assert(found =~= Seq::empty());
            }
        } else {
            if found.len() > 0 {
                let index = choose|i: int| 0 <= i < entries.len() && (#[trigger] entries[i]).0 == d;
                assert(false);
            }
            assert(found =~= Seq::empty());
        }
    }
}

/// The terms of the map, in order.
fn keys_of(grouped: &TermMap<Vec<u32>>) -> (keys: Vec<String>)
    requires
        grouped.wf(),
    ensures
        keys@.len() == grouped.spec_len(),
        forall|i: int| 0 <= i < keys@.len() ==> (#[trigger] keys@[i])@ == grouped.key(i),
{
    let mut keys: Vec<String> = Vec::new();
    let mut index: usize = 0;
    while index < grouped.entries.len()
        invariant
            index <= grouped.spec_len(),
            keys@.len() == index,
            forall|i: int| 0 <= i < index ==> (#[trigger] keys@[i])@ == grouped.key(i),
        decreases grouped.spec_len() - index,
    {
        keys.push(grouped.entries[index].0.clone());
        index = index + 1;
    }
    keys
}

/// Adds the postings of one more document.
fn add_document(
    terms: &mut TermMap<PostingList>,
    mut grouped: TermMap<Vec<u32>>,
    docid: u32,
    Ghost(docs): Ghost<Seq<StoredDocument>>,
)
    requires
        old(terms).wf(),
        grouped.wf(),
        docs.len() == docid + 1,
        forall|term: Seq<char>|
            #[trigger] term_carries(*old(terms), term, postings(docs.drop_last(), term)),
        forall|term: Seq<char>|
            match #[trigger] grouped.lookup(term) {
                Some(positions) => positions@.len() > 0 && positions@
                    == tokenizer::term_occurrences(docs.last().texts(), term),
                None => tokenizer::term_occurrences(docs.last().texts(), term).len() == 0,
            },
    ensures
        final(terms).wf(),
        forall|term: Seq<char>| #[trigger] term_carries(*final(terms), term, postings(docs, term)),
{
    let ghost all = grouped;
    let ghost front = docs.drop_last();
    let mut left: usize = grouped.entries.len();
    assert(grouped.entries@ =~= all.entries@.take(left as int));
    assert forall|term: Seq<char>| #[trigger]
        term_added(*terms, term, docs, all, left as int) by {
        assert(term_carries(*terms, term, postings(front, term)));
    }
    while left > 0
        invariant
            terms.wf(),
            all.wf(),
            left <= all.spec_len(),
            grouped.entries@ == all.entries@.take(left as int),
            docs.len() == docid + 1,
            front == docs.drop_last(),
            forall|term: Seq<char>| #[trigger]
                term_added(*terms, term, docs, all, left as int),
            forall|term: Seq<char>|
                match #[trigger] all.lookup(term) {
                    Some(positions) => positions@.len() > 0 && positions@
                        == tokenizer::term_occurrences(docs.last().texts(), term),
                    None => tokenizer::term_occurrences(docs.last().texts(), term).len() == 0,
                },
        decreases left,
    {
        let ghost before = *terms;
        let popped = grouped.entries.pop();
        left = left - 1;
        if let Some((term, positions)) = popped {
            proof {
                assert(grouped.entries@ =~= all.entries@.take(left as int));
                assert(all.key(left as int) == term@);
                all.lemma_lookup(left as int);
                assert(all.lookup(term@) == Some(positions));
                assert(term_added(before, term@, docs, all, left + 1));
            }
            let (found, index) = terms.search(term.as_str());
            let mut list = PostingList::new();
            if found {
                proof {
                    terms.lemma_lookup(index as int);
                }
                list = terms.replace_at(index, list);
            }
            assert(carries(list, postings(front, term@)));
            list.docids.push(docid);
            list.freqs.push(positions.len() as u32);
            list.positions.push(positions);
            assert(carries(list, postings(docs, term@)));
            let ghost key = term@;
            if found {
                terms.replace_at(index, list);
            } else {
                terms.insert_at(index, term, list);
            }
            assert forall|other: Seq<char>| #[trigger]
                term_added(*terms, other, docs, all, left as int) by {
                assert(term_added(before, other, docs, all, left + 1));
                if other != key {
                    assert(terms.lookup(other) == before.lookup(other));
                    if all.has(other) {
                        let at = all.position(other);
                        assert(all.key(at) == other);
                        assert(at != left);
                    }
                }
            }
        }
    }
    assert forall|term: Seq<char>| #[trigger]
        term_carries(*terms, term, postings(docs, term)) by {
        assert(term_added(*terms, term, docs, all, left as int));
        if all.has(term) {
            let at = all.position(term);
            assert(all.key(at) == term);
        } else {
            assert(all.lookup(term) is None);
        }
    }
}

/// The list at this place holds the postings of its term, without blocks.
spec fn unfinished_at(terms: TermMap<PostingList>, docs: Seq<StoredDocument>, t: int) -> bool {
    carries(terms.value(t), postings(docs, terms.key(t))) && postings(docs, terms.key(t)).len() > 0
}

/// The list at this place is sound and holds the postings of its term.
spec fn finished_at(terms: TermMap<PostingList>, docs: Seq<StoredDocument>, t: int) -> bool {
    terms.value(t).wf(docs) && agrees(terms.value(t), postings(docs, terms.key(t)))
}

fn finish_list(
    list: PostingList,
    docs: &Vec<StoredDocument>,
    Ghost(term): Ghost<Seq<char>>,
) -> (finished: PostingList)
    requires
        docs@.len() <= u32::MAX,
        carries(list, postings(docs@, term)),
        postings(docs@, term).len() > 0,
    ensures
        finished.wf(docs@),
        agrees(finished, postings(docs@, term)),
{
    let ghost entries = postings(docs@, term);
    let mut list = list;
    proof {
        lemma_postings(docs@, term);
        assert forall|i: int| 0 <= i < list.docids@.len() implies #[trigger] list.docids@[i]
            < docs@.len() by {
            assert(entries[i].0 < docs@.len());
        }
        assert forall|i: int| 0 <= i < list.docids@.len() implies (
        #[trigger] list.positions@[i])@.len() > 0 && list.freqs@[i]
            == list.positions@[i]@.len() as u32 by {
            assert(entries[i].1.len() > 0);
        }
        assert forall|i: int, j: int| 0 <= i < j < list.docids@.len() implies #[trigger]
            list.docids@[i] < #[trigger] list.docids@[j] by {
            assert(entries[i].0 < entries[j].0);
        }
        increasing_bound(list.docids@, docs@.len() as int);
    }
    list.finish_blocks(docs);
    list
}

/// Finishes the lists of all terms.
fn finish_terms(terms: &mut TermMap<PostingList>, docs: &Vec<StoredDocument>)
    requires
        old(terms).wf(),
        docs@.len() <= u32::MAX,
        forall|t: int|
            0 <= t < old(terms).spec_len() ==> #[trigger] unfinished_at(*old(terms), docs@, t),
    ensures
        final(terms).wf(),
        final(terms).spec_len() == old(terms).spec_len(),
        forall|t: int|
            0 <= t < old(terms).spec_len() ==> #[trigger] final(terms).key(t) == old(terms).key(t),
        forall|t: int|
            0 <= t < final(terms).spec_len() ==> #[trigger] finished_at(*final(terms), docs@, t),
{
    let ghost unfinished = *terms;
    let count: usize = terms.entries.len();
    let mut index: usize = 0;
    while index < count
        invariant
            count == terms.spec_len() == unfinished.spec_len(),
            index <= count,
            docs@.len() <= u32::MAX,
            terms.wf(),
            forall|t: int| 0 <= t < count ==> #[trigger] terms.key(t) == unfinished.key(t),
            forall|t: int| index <= t < count ==> #[trigger] unfinished_at(*terms, docs@, t),
            forall|t: int| 0 <= t < index ==> #[trigger] finished_at(*terms, docs@, t),
        decreases count - index,
    {
        let ghost before = *terms;
        assert(unfinished_at(before, docs@, index as int));
        let list = terms.replace_at(index, PostingList::new());
        let ghost emptied = *terms;
        let finished = finish_list(list, docs, Ghost(before.key(index as int)));
        terms.replace_at(index, finished);
        proof {
            assert forall|t: int| 0 <= t < count implies #[trigger] terms.key(t)
                == before.key(t) by {
                assert(emptied.key(t) == before.key(t));
            }
            assert forall|t: int| index + 1 <= t < count implies #[trigger] unfinished_at(
                *terms,
                docs@,
                t,
            ) by {
                assert(emptied.value(t) == before.value(t));
                assert(terms.value(t) == emptied.value(t));
                assert(terms.key(t) == before.key(t));
                assert(unfinished_at(before, docs@, t));
            }
            assert forall|t: int| 0 <= t < index + 1 implies #[trigger] finished_at(
                *terms,
                docs@,
                t,
            ) by {
                assert(terms.key(t) == before.key(t));
                if t < index {
                    assert(emptied.value(t) == before.value(t));
                    assert(terms.value(t) == emptied.value(t));
                    assert(finished_at(before, docs@, t));
                }
            }
        }
        index = index + 1;
    }
}

impl Segment {
    /// The documents are `docs`, in order, and the index says what they say.
    pub open spec fn is_build_of(&self, docs: Seq<(i64, Vec<String>)>) -> bool {
        &&& self.docs@.len() == docs.len()
        &&& forall|d: int|
            0 <= d < docs.len() ==> (#[trigger] self.docs@[d]).rowid == docs[d].0
                && self.docs@[d].fields == docs[d].1
        &&& self.faithful()
    }

    /// Every document names its terms in their order.
    pub open spec fn sorts_terms(&self) -> bool {
        forall|d: int|
            0 <= d < self.docs@.len() ==> text::sorted_texts(
                text::texts((#[trigger] self.docs@[d]).unique_terms@),
            )
    }

    /// Indexes `docs`; the docid of a document is its place in `docs`.
    pub fn build(docs: Vec<(i64, Vec<String>)>) -> (segment: Self)
        requires
            docs@.len() <= u32::MAX,
        ensures
            segment.wf(),
            segment.is_build_of(docs@),
            !segment.terms.has(Seq::empty()),
            (forall|d: int| 0 <= d < docs@.len() ==> (#[trigger] docs@[d]).1@.len() <= 64)
                ==> segment.ordered(),
            segment.sorts_terms(),
    {
        let ghost source = docs@;
        let mut stored: Vec<StoredDocument> = Vec::new();
        let mut terms: TermMap<PostingList> = TermMap::new();
        assert forall|term: Seq<char>| #[trigger]
            term_carries(terms, term, postings(stored@, term)) by {
            assert(terms.lookup(term) is None);
        }
        for entry in it: docs
            invariant
                source.len() <= u32::MAX,
                it.seq() == source,
                stored@.len() == it.index(),
                terms.wf(),
                forall|term: Seq<char>| #[trigger]
                    term_carries(terms, term, postings(stored@, term)),
                postings(stored@, Seq::empty()).len() == 0,
                forall|d: int|
                    0 <= d < stored@.len() ==> (#[trigger] stored@[d]).rowid == source[d].0
                        && stored@[d].fields == source[d].1 && stored@[d].len
                        == tokenizer::document_len(stored@[d].texts()) && text::texts(
                        stored@[d].unique_terms@,
                    ).no_duplicates(),
                forall|d: int, i: int, j: int|
                    0 <= d < stored@.len() && 0 <= i < j < stored@[d].unique_terms@.len()
                        ==> text::text_before(
                        (#[trigger] stored@[d].unique_terms@[i])@,
                        (#[trigger] stored@[d].unique_terms@[j])@,
                    ),
                forall|d: int, term: Seq<char>|
                    0 <= d < stored@.len() ==> (#[trigger] stored@[d].lists(term)
                        == (tokenizer::term_occurrences(stored@[d].texts(), term).len() > 0)),
        {
            let (rowid, fields) = entry;
            let docid: u32 = stored.len() as u32;
            let (tokens, len) = tokenize_fields(fields.as_slice());
            proof {
                tokenizer::empty_term_does_not_occur(tokens@);
            }
            let grouped = group_positions(tokens);
            let unique_terms = keys_of(&grouped);
            let ghost before = stored@;
            let ghost listed = text::texts(unique_terms@);
            proof {
                assert forall|i: int, j: int| 0 <= i < j < unique_terms@.len() implies
                    text::text_before(
                    (#[trigger] unique_terms@[i])@,
                    (#[trigger] unique_terms@[j])@,
                ) by {
                    assert(text::text_before(grouped.key(i), grouped.key(j)));
                }
                assert forall|i: int, j: int|
                    0 <= i < listed.len() && 0 <= j < listed.len() && i != j implies listed[i]
                    != listed[j] by {
                    text::text_order_laws(listed[i], listed[i], listed[i]);
                    if i < j {
                        assert(text::text_before(unique_terms@[i]@, unique_terms@[j]@));
                    } else {
                        assert(text::text_before(unique_terms@[j]@, unique_terms@[i]@));
                    }
                }
                assert forall|term: Seq<char>| #[trigger] listed.contains(term)
                    == grouped.has(term) by {
                    if listed.contains(term) {
                        let i = choose|i: int| 0 <= i < listed.len() && listed[i] == term;
                        assert(unique_terms@[i]@ == grouped.key(i));
                    }
                    if grouped.has(term) {
                        let i = grouped.position(term);
                        assert(unique_terms@[i]@ == grouped.key(i));
                        assert(listed[i] == term);
                    }
                }
            }
            let document = StoredDocument { rowid, fields, len, unique_terms };
            let ghost added = document;
            stored.push(document);
            proof {
                assert(stored@.drop_last() =~= before);
                assert forall|term: Seq<char>| #[trigger] added.lists(term) == (
                tokenizer::term_occurrences(added.texts(), term).len() > 0) by {
                    assert(listed.contains(term) == grouped.has(term));
                    assert(grouped.has(term) == (grouped.lookup(term) is Some));
                }
                assert forall|term: Seq<char>| #[trigger]
                    term_carries(terms, term, postings(stored@.drop_last(), term)) by {
                    assert(term_carries(terms, term, postings(before, term)));
                }
            }
            add_document(&mut terms, grouped, docid, Ghost(stored@));
        }
        let ghost unfinished = terms;
        proof {
            assert forall|t: int| 0 <= t < terms.spec_len() implies #[trigger] unfinished_at(
                terms,
                stored@,
                t,
            ) by {
                terms.lemma_lookup(t);
                assert(term_carries(terms, terms.key(t), postings(stored@, terms.key(t))));
            }
        }
        finish_terms(&mut terms, &stored);
        let segment = Segment { docs: stored, terms };
        proof {
            assert forall|t: int| 0 <= t < segment.terms.spec_len() implies (
            #[trigger] segment.terms.value(t)).wf(segment.docs@) && agrees(
                segment.terms.value(t),
                postings(segment.docs@, segment.terms.key(t)),
            ) by {
                assert(finished_at(segment.terms, segment.docs@, t));
            }
            assert forall|term: Seq<char>| !(#[trigger] segment.terms.has(term)) implies postings(
                segment.docs@,
                term,
            ).len() == 0 by {
                if unfinished.has(term) {
                    let at = unfinished.position(term);
                    assert(unfinished.key(at) == term);
                    assert(segment.terms.key(at) == term);
                }
                assert(term_carries(unfinished, term, postings(segment.docs@, term)));
            }
            lemma_built(segment);
            if segment.terms.has(Seq::empty()) {
                let at = segment.terms.position(Seq::empty());
                assert(segment.terms.key(at) == Seq::<char>::empty());
                assert(unfinished.key(at) == Seq::<char>::empty());
                unfinished.lemma_lookup(at);
                assert(term_carries(
                    unfinished,
                    Seq::empty(),
                    postings(segment.docs@, Seq::empty()),
                ));
            }
            if forall|d: int| 0 <= d < source.len() ==> (#[trigger] source[d]).1@.len() <= 64 {
                assert forall|t: int, i: int|
                    0 <= t < segment.terms.spec_len() && 0 <= i < segment.terms.value(
                        t,
                    ).positions@.len() implies ascending(
                    (#[trigger] segment.terms.value(t).positions@[i])@,
                ) by {
                    let list = segment.terms.value(t);
                    let entries = postings(segment.docs@, segment.terms.key(t));
                    lemma_postings(segment.docs@, segment.terms.key(t));
                    let d = entries[i].0 as int;
                    assert(source[d].1@.len() <= 64);
                    assert(segment.docs@[d].fields == source[d].1);
                    tokenizer::term_occurrences_sorted(
                        segment.docs@[d].texts(),
                        segment.terms.key(t),
                    );
                }
                assert(segment.ordered());
            }
        }
        segment
    }
}

} // verus!
