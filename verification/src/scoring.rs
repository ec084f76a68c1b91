//! Which terms of a query count towards the score of a document.
use crate::matching;
use crate::query::{lemma_child_decreases, Query};
use crate::snapshot::Snapshot;
use crate::tally;
use crate::text;
use crate::text::{has_prefix, TermMap};
use vstd::prelude::*;

verus! {

impl Snapshot {
    /// Whether `term` counts: it is named by a part of the query that is not
    /// negated, or begins with a prefix named there and stands in a live document.
    pub open spec fn collects(self, query: Query, positive: bool, term: Seq<char>) -> bool
        decreases query,
    {
        match query {
            Query::Term(name) => positive && name@ == term,
            Query::Prefix(prefix) => positive && self.df(term) > 0 && text::starts_with(
                term,
                prefix@,
            ),
            Query::Phrase(terms) => positive && text::texts(terms@).contains(term),
            Query::Near { terms, distance } => positive && text::texts(terms@).contains(term),
            Query::Column { column, query } => self.collects(*query, positive, term),
            Query::And(children) => exists|i: int|
                0 <= i < children@.len() && self.collects(#[trigger] children@[i], positive, term),
            Query::Or(children) => exists|i: int|
                0 <= i < children@.len() && self.collects(#[trigger] children@[i], positive, term),
            Query::Not(child) => self.collects(*child, false, term),
            Query::All => false,
        }
    }

    /// Whether `term` counts towards the score.
    pub open spec fn scores(self, query: Query, term: Seq<char>) -> bool {
        self.collects(query, true, term)
    }
}

/// Adds `term` to the set.
fn insert_term(terms: &mut TermMap<()>, term: &String)
    requires
        old(terms).wf(),
    ensures
        final(terms).wf(),
        forall|other: Seq<char>| #[trigger]
            final(terms).has(other) == (old(terms).has(other) || other == term@),
{
    let ghost before = *terms;
    let (found, index) = terms.search(term.as_str());
    if !found {
        terms.insert_at(index, term.clone(), ());
        assert forall|other: Seq<char>| #[trigger]
            terms.has(other) == (before.has(other) || other == term@) by {
            assert(terms.has(other) == (terms.lookup(other) is Some));
            assert(before.has(other) == (before.lookup(other) is Some));
            if other != term@ {
                assert(terms.lookup(other) == before.lookup(other));
            }
        }
    }
}

/// Adds each of `names` to the set.
fn insert_terms(terms: &mut TermMap<()>, names: &Vec<String>)
    requires
        old(terms).wf(),
    ensures
        final(terms).wf(),
        forall|other: Seq<char>| #[trigger]
            final(terms).has(other) == (old(terms).has(other) || text::texts(names@).contains(
                other,
            )),
{
    let ghost all = text::texts(names@);
    let ghost before = *terms;
    let mut done: usize = 0;
    assert(all.take(0) =~= Seq::empty());
    while done < names.len()
        invariant
            done <= names@.len(),
            all == text::texts(names@),
            terms.wf(),
            before == *old(terms),
            forall|other: Seq<char>| #[trigger]
                terms.has(other) == (before.has(other) || all.take(done as int).contains(other)),
        decreases names@.len() - done,
    {
        insert_term(terms, &names[done]);
        assert forall|other: Seq<char>| #[trigger]
            all.take(done + 1).contains(other) == (all.take(done as int).contains(other) || other
                == names@[done as int]@) by {
            tally::take_contains(all, done as int, other);
        }
        done = done + 1;
    }
    assert(all.take(done as int) =~= all);
}

impl Snapshot {
    /// Adds the live terms that begin with `prefix`.
    fn collect_prefix(&self, prefix: &str, terms: &mut TermMap<()>)
        requires
            self.wf(),
            old(terms).wf(),
        ensures
            final(terms).wf(),
            forall|other: Seq<char>| #[trigger]
                final(terms).has(other) == (old(terms).has(other) || (self.df(other) > 0
                    && text::starts_with(other, prefix@))),
    {
        let ghost before = *terms;
        let ghost live = self.term_df;
        let (found, start) = self.term_df.search(prefix);
        let mut index: usize = start;
        while index < self.term_df.entries.len()
            invariant_except_break
                forall|k: int|
                    start <= k < index ==> text::starts_with(#[trigger] live.key(k), prefix@),
            invariant
                start <= index <= live.spec_len(),
                self.wf(),
                live == self.term_df,
                terms.wf(),
                before == *old(terms),
                forall|other: Seq<char>| #[trigger]
                    terms.has(other) == (before.has(other) || exists|k: int|
                        start <= k < index && #[trigger] live.key(k) == other),
            ensures
                forall|k: int|
                    start <= k < index ==> text::starts_with(#[trigger] live.key(k), prefix@),
                index < live.spec_len() ==> !text::starts_with(live.key(index as int), prefix@),
            decreases live.spec_len() - index,
        {
            if !has_prefix(self.term_df.entries[index].0.as_str(), prefix) {
                break;
            }
            let ghost current = *terms;
            insert_term(terms, &self.term_df.entries[index].0);
            assert forall|other: Seq<char>| #[trigger]
                terms.has(other) == (before.has(other) || exists|k: int|
                    start <= k < index + 1 && #[trigger] live.key(k) == other) by {
                assert(current.has(other) == (before.has(other) || exists|k: int|
                    start <= k < index && #[trigger] live.key(k) == other));
                if other == live.key(index as int) {
                    assert(live.key(index as int) == other);
                }
            }
            index = index + 1;
        }
        assert forall|other: Seq<char>| #[trigger]
            terms.has(other) == (before.has(other) || (self.df(other) > 0 && text::starts_with(
                other,
                prefix@,
            ))) by {
            tally::counters_present(live, other);
            assert(tally::count_of(live, other) == self.df(other));
            if exists|k: int| start <= k < index && #[trigger] live.key(k) == other {
                let k = choose|k: int| start <= k < index && #[trigger] live.key(k) == other;
                assert(live.has(other));
            }
            if live.has(other) && text::starts_with(other, prefix@) {
                let k = live.position(other);
                assert(live.key(k) == other);
                text::prefix_run(prefix@, other, other);
                assert(k >= start);
                if k >= index {
                    let stop = live.key(index as int);
                    text::text_order_laws(prefix@, stop, prefix@);
                    if k > index {
                        assert(text::text_before(stop, other));
                        text::prefix_run(prefix@, stop, other);
                    }
                }
            }
        }
    }

    /// Adds the terms that count to the set.
    pub fn collect_terms(&self, query: &Query, positive: bool, terms: &mut TermMap<()>)
        requires
            self.wf(),
            old(terms).wf(),
        ensures
            final(terms).wf(),
            forall|other: Seq<char>| #[trigger]
                final(terms).has(other) == (old(terms).has(other) || self.collects(
                    *query,
                    positive,
                    other,
                )),
        decreases query,
    {
        let ghost before = *terms;
        match query {
            Query::Term(name) => {
                if positive {
                    insert_term(terms, name);
                }
            },
            Query::Prefix(prefix) => {
                if positive {
                    self.collect_prefix(prefix.as_str(), terms);
                }
            },
            Query::Phrase(names) => {
                if positive {
                    insert_terms(terms, names);
                }
            },
            Query::Near { terms: names, distance } => {
                if positive {
                    insert_terms(terms, names);
                }
            },
            Query::Column { column, query } => {
                self.collect_terms(query, positive, terms);
            },
            Query::And(children) => {
                let mut done: usize = 0;
                while done < children.len()
                    invariant
                        self.wf(),
                        terms.wf(),
                        before == *old(terms),
                        *query == Query::And(*children),
                        done <= children@.len(),
                        forall|other: Seq<char>| #[trigger]
                            terms.has(other) == (before.has(other) || exists|i: int|
                                0 <= i < done && self.collects(
                                    #[trigger] children@[i],
                                    positive,
                                    other,
                                )),
                    decreases children@.len() - done,
                {
                    let child = &children[done];
                    let ghost current = *terms;
                    proof {
                        lemma_child_decreases(*query, children@, done as int);
                    }
                    self.collect_terms(child, positive, terms);
                    assert forall|other: Seq<char>| #[trigger]
                        terms.has(other) == (before.has(other) || exists|i: int|
                            0 <= i < done + 1 && self.collects(
                                #[trigger] children@[i],
                                positive,
                                other,
                            )) by {
                        assert(current.has(other) == (before.has(other) || exists|i: int|
                            0 <= i < done && self.collects(
                                #[trigger] children@[i],
                                positive,
                                other,
                            )));
                        if self.collects(*child, positive, other) {
                            assert(self.collects(children@[done as int], positive, other));
                        }
                    }
                    done = done + 1;
                }
                assert forall|other: Seq<char>| #[trigger]
                    terms.has(other) == (before.has(other) || self.collects(
                        *query,
                        positive,
                        other,
                    )) by {
                    assert(query->And_0 == *children);
                }
            },
            Query::Or(children) => {
                let mut done: usize = 0;
                while done < children.len()
                    invariant
                        self.wf(),
                        terms.wf(),
                        before == *old(terms),
                        *query == Query::Or(*children),
                        done <= children@.len(),
                        forall|other: Seq<char>| #[trigger]
                            terms.has(other) == (before.has(other) || exists|i: int|
                                0 <= i < done && self.collects(
                                    #[trigger] children@[i],
                                    positive,
                                    other,
                                )),
                    decreases children@.len() - done,
                {
                    let child = &children[done];
                    let ghost current = *terms;
                    proof {
                        lemma_child_decreases(*query, children@, done as int);
                    }
                    self.collect_terms(child, positive, terms);
                    assert forall|other: Seq<char>| #[trigger]
                        terms.has(other) == (before.has(other) || exists|i: int|
                            0 <= i < done + 1 && self.collects(
                                #[trigger] children@[i],
                                positive,
                                other,
                            )) by {
                        assert(current.has(other) == (before.has(other) || exists|i: int|
                            0 <= i < done && self.collects(
                                #[trigger] children@[i],
                                positive,
                                other,
                            )));
                        if self.collects(*child, positive, other) {
                            assert(self.collects(children@[done as int], positive, other));
                        }
                    }
                    done = done + 1;
                }
                assert forall|other: Seq<char>| #[trigger]
                    terms.has(other) == (before.has(other) || self.collects(
                        *query,
                        positive,
                        other,
                    )) by {
                    assert(query->Or_0 == *children);
                }
            },
            Query::Not(child) => {
                self.collect_terms(child, false, terms);
            },
            Query::All => {},
        }
    }

    /// The terms that count, in order, each once.
    pub fn expanded_scoring_terms(&self, query: &Query) -> (terms: Vec<String>)
        requires
            self.wf(),
        ensures
            self.scoring_terms(*query, text::texts(terms@)),
    {
        let mut set: TermMap<()> = TermMap::new();
        assert forall|other: Seq<char>| !(#[trigger] set.has(other)) by {
            assert(set.lookup(other) is None);
        }
        self.collect_terms(query, true, &mut set);
        let mut terms: Vec<String> = Vec::new();
        let mut done: usize = 0;
        while done < set.entries.len()
            invariant
                done <= set.spec_len(),
                terms@.len() == done,
                forall|i: int| 0 <= i < done ==> (#[trigger] terms@[i])@ == set.key(i),
            decreases set.spec_len() - done,
        {
            terms.push(set.entries[done].0.clone());
            done = done + 1;
        }
        let count: usize = terms.len();
        proof {
            let names = text::texts(terms@);
            assert(names.len() == count);
            assert forall|i: int, j: int| 0 <= i < j < names.len() implies text::text_before(
                #[trigger] names[i],
                #[trigger] names[j],
            ) by {
                assert(terms@[i]@ == set.key(i) && terms@[j]@ == set.key(j));
            }
            assert forall|term: Seq<char>| #[trigger] names.contains(term) == self.scores(
                *query,
                term,
            ) by {
                assert(set.has(term) == self.collects(*query, true, term));
                if names.contains(term) {
                    let i = choose|i: int| 0 <= i < names.len() && names[i] == term;
                    assert(terms@[i]@ == set.key(i));
                }
                if set.has(term) {
                    let i = set.position(term);
                    assert(set.key(i) == term);
                    assert(terms@[i]@ == set.key(i));
                    assert(names[i] == term);
                }
            }
        }
        terms
    }

    /// `terms` are the terms that count, in order, each once.
    pub open spec fn scoring_terms(self, query: Query, terms: Seq<Seq<char>>) -> bool {
        &&& forall|i: int, j: int|
            0 <= i < j < terms.len() ==> text::text_before(
                #[trigger] terms[i],
                #[trigger] terms[j],
            )
        &&& forall|term: Seq<char>| #[trigger] terms.contains(term) == self.scores(query, term)
        &&& terms.len() <= usize::MAX
    }

    /// In how many live documents a term stands.
    pub fn document_frequency(&self, term: &str) -> (df: u32)
        requires
            self.wf(),
        ensures
            df == self.df(term@),
    {
        assert(tally::count_of(self.term_df, term@) == self.df(term@));
        match self.term_df.get(term) {
            Some(df) => *df,
            None => 0,
        }
    }
}

/// Whether every match must hold a term that counts: the query asks for a term
/// in each of its alternatives, and not only by negation.
pub open spec fn anchored(query: Query) -> bool
    decreases query,
{
    match query {
        Query::Term(_) => true,
        Query::Prefix(_) => true,
        Query::Phrase(_) => true,
        Query::Near { terms, distance } => true,
        Query::Column { column, query } => anchored(*query),
        Query::And(children) => exists|i: int|
            0 <= i < children@.len() && anchored(#[trigger] children@[i]),
        Query::Or(children) => forall|i: int|
            0 <= i < children@.len() ==> anchored(#[trigger] children@[i]),
        Query::Not(_) => false,
        Query::All => false,
    }
}

/// Whether every match must hold a term that counts.
pub fn is_anchored(query: &Query) -> (result: bool)
    ensures
        result == anchored(*query),
    decreases query,
{
    match query {
        Query::Term(_) | Query::Prefix(_) | Query::Phrase(_) | Query::Near { .. } => true,
        Query::Column { column, query } => is_anchored(query),
        Query::And(children) => {
            let mut done: usize = 0;
            let mut found: bool = false;
            while !found && done < children.len()
                invariant
                    done <= children@.len(),
                    *query == Query::And(*children),
                    !found ==> forall|i: int|
                        0 <= i < done ==> !anchored(#[trigger] children@[i]),
                    found ==> exists|i: int|
                        0 <= i < children@.len() && anchored(#[trigger] children@[i]),
                decreases children@.len() - done,
            {
                proof {
                    lemma_child_decreases(*query, children@, done as int);
                }
                found = is_anchored(&children[done]);
                done = done + 1;
            }
            found
        },
        Query::Or(children) => {
            let mut done: usize = 0;
            let mut all: bool = true;
            while all && done < children.len()
                invariant
                    done <= children@.len(),
                    *query == Query::Or(*children),
                    all ==> forall|i: int|
                        0 <= i < done ==> anchored(#[trigger] children@[i]),
                    !all ==> exists|i: int|
                        0 <= i < children@.len() && !anchored(#[trigger] children@[i]),
                decreases children@.len() - done,
            {
                proof {
                    lemma_child_decreases(*query, children@, done as int);
                }
                all = is_anchored(&children[done]);
                done = done + 1;
            }
            all
        },
        Query::Not(_) | Query::All => false,
    }
}

/// A live document that matches an anchored query holds a term that counts.
pub proof fn anchored_matches_hold_a_term(
    snapshot: Snapshot,
    query: Query,
    column: Option<u8>,
    segment: int,
    docid: int,
)
    requires
        snapshot.wf(),
        anchored(query),
        snapshot.live(segment, docid),
        matching::matches_in_column(query, snapshot.segments@[segment].document(docid), column),
    ensures
        exists|term: Seq<char>| #[trigger]
            snapshot.segments@[segment].holds(docid, term) && snapshot.scores(query, term),
    decreases query,
{
    let built = snapshot.segments@[segment];
    let at = built.document(docid);
    match query {
        Query::Term(name) => {
            assert(built.holds(docid, name@));
        },
        Query::Prefix(prefix) => {
            let term = choose|term: Seq<char>|
                text::starts_with(term, prefix@) && matching::any_in_column(
                    #[trigger] at(term),
                    column,
                );
            assert(built.holds(docid, term));
            snapshot.live_term_counts(segment, docid, term);
        },
        Query::Phrase(terms) => {
            let names = text::texts(terms@);
            assert(built.holds(docid, names[0]));
            assert(names.contains(names[0]));
        },
        Query::Near { terms, distance } => {
            let names = text::texts(terms@);
            let (low, high) = choose|low: int, high: int|
                matching::near_window(at, names, distance, column, low, high);
            assert(matching::count_between(at(names[0]), low, high) >= matching::multiplicity(
                names,
                names[0],
            ));
            lemma_named_once(names, 0);
            assert(built.holds(docid, names[0]));
            assert(names.contains(names[0]));
        },
        Query::Column { column: inner, query: child } => {
            anchored_matches_hold_a_term(snapshot, *child, Some(inner), segment, docid);
            let term = choose|term: Seq<char>| #[trigger]
                built.holds(docid, term) && snapshot.scores(*child, term);
            assert(snapshot.scores(query, term));
        },
        Query::And(children) => {
            let i = choose|i: int| 0 <= i < children@.len() && anchored(#[trigger] children@[i]);
            lemma_child_decreases(query, children@, i);
            assert(matching::matches_in_column(children@[i], at, column));
            anchored_matches_hold_a_term(snapshot, children@[i], column, segment, docid);
            let term = choose|term: Seq<char>| #[trigger]
                built.holds(docid, term) && snapshot.scores(children@[i], term);
            assert(snapshot.collects(children@[i], true, term));
            assert(snapshot.scores(query, term));
        },
        Query::Or(children) => {
            let i = choose|i: int|
                0 <= i < children@.len() && matching::matches_in_column(
                    #[trigger] children@[i],
                    at,
                    column,
                );
            lemma_child_decreases(query, children@, i);
            assert(anchored(children@[i]));
            anchored_matches_hold_a_term(snapshot, children@[i], column, segment, docid);
            let term = choose|term: Seq<char>| #[trigger]
                built.holds(docid, term) && snapshot.scores(children@[i], term);
            assert(snapshot.collects(children@[i], true, term));
            assert(snapshot.scores(query, term));
        },
        _ => {},
    }
}

proof fn lemma_named_once(terms: Seq<Seq<char>>, index: int)
    requires
        0 <= index < terms.len(),
    ensures
        matching::multiplicity(terms, terms[index]) > 0,
    decreases terms.len(),
{
    if index < terms.len() - 1 {
        assert(terms.drop_last()[index] == terms[index]);
        lemma_named_once(terms.drop_last(), index);
    }
}

impl Snapshot {
    /// A term of a live document has a document frequency.
    pub proof fn live_term_counts(self, segment: int, docid: int, term: Seq<char>)
        requires
            self.wf(),
            self.live(segment, docid),
            self.segments@[segment].holds(docid, term),
        ensures
            self.df(term) > 0,
    {
        let live = self.live_fn();
        assert(self.segments@[segment].wf());
        assert(self.segments@[segment].docs@[docid].lists(term));
        assert(live(segment, docid));
        tally::tally_positive(self.segments@, live, tally::listing(term));
    }
}

} // verus!
