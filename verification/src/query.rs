//! Typed queries, search options and search results.
use crate::error::{invalid_input, Error, Result};
use crate::text;
use crate::text::copy_texts;
use crate::tokenizer::normalize_term;
use vstd::prelude::*;

verus! {

/// A typed query tree. It deliberately has no SQL or textual DSL in the hot path.
#[derive(Debug, PartialEq, Eq, Hash)]
pub enum Query {
    Term(String),
    Prefix(String),
    Phrase(Vec<String>),
    Near { terms: Vec<String>, distance: u32 },
    Column { column: u8, query: Box<Query> },
    And(Vec<Query>),
    Or(Vec<Query>),
    Not(Box<Query>),
    All,
}

/// The terms in the form in which the index holds them.
pub open spec fn normal_terms(terms: Seq<&str>) -> Seq<Seq<char>> {
    terms.map_values(|term: &str| text::lowercase(term@))
}

fn normalize_terms(terms: &[&str]) -> (normal: Vec<String>)
    ensures
        text::texts(normal@) == normal_terms(terms@),
{
    let mut normal: Vec<String> = Vec::new();
    let mut done: usize = 0;
    while done < terms.len()
        invariant
            done <= terms@.len(),
            normal@.len() == done,
            forall|i: int| 0 <= i < done ==> (#[trigger] normal@[i])@ == text::lowercase(terms@[i]@),
        decreases terms@.len() - done,
    {
        normal.push(normalize_term(terms[done]));
        done = done + 1;
    }
    assert(text::texts(normal@) =~= normal_terms(terms@));
    normal
}

impl Query {
    /// Whether two queries are built alike, from the same texts and numbers.
    pub open spec fn same(self, other: Query) -> bool
        decreases self,
    {
        match self {
            Query::Term(term) => other matches Query::Term(term2) && term@ == term2@,
            Query::Prefix(prefix) => other matches Query::Prefix(prefix2) && prefix@ == prefix2@,
            Query::Phrase(terms) => other matches Query::Phrase(terms2) && text::texts(terms@)
                == text::texts(terms2@),
            Query::Near { terms, distance } => other matches Query::Near {
                terms: terms2,
                distance: distance2,
            } && text::texts(terms@) == text::texts(terms2@) && distance == distance2,
            Query::Column { column, query } => other matches Query::Column {
                column: column2,
                query: query2,
            } && column == column2 && query.same(*query2),
            Query::And(children) => other matches Query::And(children2) && children@.len()
                == children2@.len() && forall|i: int|
                0 <= i < children@.len() ==> (#[trigger] children@[i]).same(children2@[i]),
            Query::Or(children) => other matches Query::Or(children2) && children@.len()
                == children2@.len() && forall|i: int|
                0 <= i < children@.len() ==> (#[trigger] children@[i]).same(children2@[i]),
            Query::Not(child) => other matches Query::Not(child2) && child.same(*child2),
            Query::All => other is All,
        }
    }

    /// Documents that hold `term`.
    pub fn term(term: &str) -> (query: Self)
        ensures
            query matches Query::Term(normal) && normal@ == text::lowercase(term@),
    {
        Query::Term(normalize_term(term))
    }

    /// Documents that hold a term that begins with `prefix`.
    pub fn prefix(prefix: &str) -> (query: Self)
        ensures
            query matches Query::Prefix(normal) && normal@ == text::lowercase(prefix@),
    {
        Query::Prefix(normalize_term(prefix))
    }

    /// Documents that hold `terms` one right after the other.
    pub fn phrase(terms: &[&str]) -> (query: Self)
        ensures
            query matches Query::Phrase(normal) && text::texts(normal@) == normal_terms(terms@),
    {
        Query::Phrase(normalize_terms(terms))
    }

    /// Documents that hold all of `terms` within `distance` of each other.
    pub fn near(terms: &[&str], distance: u32) -> (query: Self)
        ensures
            query matches Query::Near { terms: normal, distance: limit } && text::texts(normal@)
                == normal_terms(terms@) && limit == distance,
    {
        Query::Near { terms: normalize_terms(terms), distance }
    }

    /// Documents that match `query` within one column.
    pub fn column(column: u8, query: Query) -> (restricted: Self)
        ensures
            restricted matches Query::Column { column: kept, query: inner } && kept == (
            if column < 63 {
                column
            } else {
                63u8
            }) && *inner == query,
    {
        Query::Column {
            column: if column < 63 {
                column
            } else {
                63
            },
            query: Box::new(query),
        }
    }

    /// Documents that match every one of `queries`.
    pub fn and(queries: Vec<Query>) -> (query: Self)
        ensures
            query == Query::And(queries),
    {
        Query::And(queries)
    }

    /// Documents that match at least one of `queries`.
    pub fn or(queries: Vec<Query>) -> (query: Self)
        ensures
            query == Query::Or(queries),
    {
        Query::Or(queries)
    }

    /// Documents that do not match `query`.
    pub fn negate(query: Query) -> (negated: Self)
        ensures
            negated == Query::Not(Box::new(query)),
    {
        Query::Not(Box::new(query))
    }

    /// A query built like this one.
    pub fn copy(&self) -> (copy: Query)
        ensures
            self.same(copy),
        decreases self,
    {
        match self {
            Query::Term(term) => Query::Term(term.clone()),
            Query::Prefix(prefix) => Query::Prefix(prefix.clone()),
            Query::Phrase(terms) => Query::Phrase(copy_texts(terms)),
            Query::Near { terms, distance } => Query::Near {
                terms: copy_texts(terms),
                distance: *distance,
            },
            Query::Column { column, query } => Query::Column {
                column: *column,
                query: Box::new(query.copy()),
            },
            Query::And(children) => {
                let mut copies: Vec<Query> = Vec::new();
                let mut done: usize = 0;
                while done < children.len()
                    invariant
                        *self == Query::And(*children),
                        done <= children@.len(),
                        copies@.len() == done,
                        forall|i: int|
                            0 <= i < done ==> (#[trigger] children@[i]).same(copies@[i]),
                    decreases children@.len() - done,
                {
                    let child = &children[done];
                    proof {
                        lemma_child_decreases(*self, children@, done as int);
                    }
                    copies.push(child.copy());
                    done = done + 1;
                }
                Query::And(copies)
            },
            Query::Or(children) => {
                let mut copies: Vec<Query> = Vec::new();
                let mut done: usize = 0;
                while done < children.len()
                    invariant
                        *self == Query::Or(*children),
                        done <= children@.len(),
                        copies@.len() == done,
                        forall|i: int|
                            0 <= i < done ==> (#[trigger] children@[i]).same(copies@[i]),
                    decreases children@.len() - done,
                {
                    let child = &children[done];
                    proof {
                        lemma_child_decreases(*self, children@, done as int);
                    }
                    copies.push(child.copy());
                    done = done + 1;
                }
                Query::Or(copies)
            },
            Query::Not(child) => Query::Not(Box::new(child.copy())),
            Query::All => Query::All,
        }
    }

    /// Whether `other` is built like this query.
    pub fn is_same(&self, other: &Query) -> (result: bool)
        ensures
            result == self.same(*other),
        decreases self,
    {
        match (self, other) {
            (Query::Term(term), Query::Term(term2)) => same_text(term, term2),
            (Query::Prefix(prefix), Query::Prefix(prefix2)) => same_text(prefix, prefix2),
            (Query::Phrase(terms), Query::Phrase(terms2)) => same_texts(terms, terms2),
            (
                Query::Near { terms, distance },
                Query::Near { terms: terms2, distance: distance2 },
            ) => same_texts(terms, terms2) && *distance == *distance2,
            (
                Query::Column { column, query },
                Query::Column { column: column2, query: query2 },
            ) => *column == *column2 && query.is_same(query2),
            (Query::And(children), Query::And(children2)) => {
                if children.len() != children2.len() {
                    return false;
                }
                let mut done: usize = 0;
                while done < children.len()
                    invariant
                        *self == Query::And(*children),
                        *other == Query::And(*children2),
                        done <= children@.len() == children2@.len(),
                        forall|i: int|
                            0 <= i < done ==> (#[trigger] children@[i]).same(children2@[i]),
                    decreases children@.len() - done,
                {
                    let child = &children[done];
                    proof {
                        lemma_child_decreases(*self, children@, done as int);
                    }
                    if !child.is_same(&children2[done]) {
                        return false;
                    }
                    done = done + 1;
                }
                true
            },
            (Query::Or(children), Query::Or(children2)) => {
                if children.len() != children2.len() {
                    return false;
                }
                let mut done: usize = 0;
                while done < children.len()
                    invariant
                        *self == Query::Or(*children),
                        *other == Query::Or(*children2),
                        done <= children@.len() == children2@.len(),
                        forall|i: int|
                            0 <= i < done ==> (#[trigger] children@[i]).same(children2@[i]),
                    decreases children@.len() - done,
                {
                    let child = &children[done];
                    proof {
                        lemma_child_decreases(*self, children@, done as int);
                    }
                    if !child.is_same(&children2[done]) {
                        return false;
                    }
                    done = done + 1;
                }
                true
            },
            (Query::Not(child), Query::Not(child2)) => child.is_same(child2),
            (Query::All, Query::All) => true,
            _ => false,
        }
    }
}

/// A child of a conjunction or disjunction is smaller than the whole.
pub proof fn lemma_child_decreases(query: Query, children: Seq<Query>, index: int)
    requires
        (query matches Query::And(list) && list@ == children) || (query matches Query::Or(list)
            && list@ == children),
        0 <= index < children.len(),
    ensures
        decreases_to!(query => children[index]),
{
    match query {
        Query::And(list) => {
            assert(decreases_to!(query->And_0 => query->And_0@[index]));
            assert(decreases_to!(query => query->And_0));
            assert(decreases_to!(query => query->And_0@[index]));
        },
        Query::Or(list) => {
            assert(decreases_to!(query->Or_0 => query->Or_0@[index]));
            assert(decreases_to!(query => query->Or_0));
            assert(decreases_to!(query => query->Or_0@[index]));
        },
        _ => {},
    }
}

fn same_text(left: &String, right: &String) -> (result: bool)
    ensures
        result == (left@ == right@),
{
    match text::text_order(left.as_str(), right.as_str()) {
        text::TextOrder::Same => true,
        _ => {
            proof {
                text::text_order_laws(left@, right@, left@);
            }
            false
        },
    }
}

fn same_texts(left: &Vec<String>, right: &Vec<String>) -> (result: bool)
    ensures
        result == (text::texts(left@) == text::texts(right@)),
{
    let ghost (a, b) = (text::texts(left@), text::texts(right@));
    if left.len() != right.len() {
        assert(a.len() != b.len());
        return false;
    }
    let mut done: usize = 0;
    while done < left.len()
        invariant
            done <= left@.len() == right@.len(),
            a == text::texts(left@),
            b == text::texts(right@),
            forall|i: int| 0 <= i < done ==> a[i] == b[i],
        decreases left@.len() - done,
    {
        if !same_text(&left[done], &right[done]) {
            assert(a[done as int] != b[done as int]);
            return false;
        }
        assert(a[done as int] == b[done as int]);
        done = done + 1;
    }
    assert(a =~= b);
    true
}

/// `same` is an equivalence.
pub proof fn same_laws(a: Query, b: Query, c: Query)
    ensures
        a.same(a),
        a.same(b) ==> b.same(a),
        a.same(b) && b.same(c) ==> a.same(c),
    decreases a,
{
    lemma_same_reflexive(a);
    if a.same(b) {
        lemma_same_symmetric(a, b);
        if b.same(c) {
            lemma_same_transitive(a, b, c);
        }
    }
}

proof fn lemma_same_reflexive(a: Query)
    ensures
        a.same(a),
    decreases a,
{
    match a {
        Query::Column { column, query } => lemma_same_reflexive(*query),
        Query::Not(child) => lemma_same_reflexive(*child),
        Query::And(children) => {
            assert forall|i: int| 0 <= i < children@.len() implies (#[trigger] children@[i]).same(
                children@[i],
            ) by {
                lemma_child_decreases(a, children@, i);
                lemma_same_reflexive(children@[i]);
            }
        },
        Query::Or(children) => {
            assert forall|i: int| 0 <= i < children@.len() implies (#[trigger] children@[i]).same(
                children@[i],
            ) by {
                lemma_child_decreases(a, children@, i);
                lemma_same_reflexive(children@[i]);
            }
        },
        _ => {},
    }
}

proof fn lemma_same_symmetric(a: Query, b: Query)
    requires
        a.same(b),
    ensures
        b.same(a),
    decreases a,
{
    match (a, b) {
        (Query::Column { column, query }, Query::Column { column: column2, query: query2 }) => {
            lemma_same_symmetric(*query, *query2)
        },
        (Query::Not(child), Query::Not(child2)) => lemma_same_symmetric(*child, *child2),
        (Query::And(children), Query::And(children2)) => {
            assert forall|i: int| 0 <= i < children2@.len() implies (#[trigger] children2@[i]).same(
                children@[i],
            ) by {
                assert(children@[i].same(children2@[i]));
                lemma_child_decreases(a, children@, i);
                lemma_same_symmetric(children@[i], children2@[i]);
            }
        },
        (Query::Or(children), Query::Or(children2)) => {
            assert forall|i: int| 0 <= i < children2@.len() implies (#[trigger] children2@[i]).same(
                children@[i],
            ) by {
                assert(children@[i].same(children2@[i]));
                lemma_child_decreases(a, children@, i);
                lemma_same_symmetric(children@[i], children2@[i]);
            }
        },
        _ => {},
    }
}

proof fn lemma_same_transitive(a: Query, b: Query, c: Query)
    requires
        a.same(b),
        b.same(c),
    ensures
        a.same(c),
    decreases a,
{
    match (a, b, c) {
        (
            Query::Column { column, query },
            Query::Column { column: column2, query: query2 },
            Query::Column { column: column3, query: query3 },
        ) => lemma_same_transitive(*query, *query2, *query3),
        (Query::Not(child), Query::Not(child2), Query::Not(child3)) => lemma_same_transitive(
            *child,
            *child2,
            *child3,
        ),
        (Query::And(children), Query::And(children2), Query::And(children3)) => {
            assert forall|i: int| 0 <= i < children@.len() implies (#[trigger] children@[i]).same(
                children3@[i],
            ) by {
                assert(children2@[i].same(children3@[i]));
                lemma_child_decreases(a, children@, i);
                lemma_same_transitive(children@[i], children2@[i], children3@[i]);
            }
        },
        (Query::Or(children), Query::Or(children2), Query::Or(children3)) => {
            assert forall|i: int| 0 <= i < children@.len() implies (#[trigger] children@[i]).same(
                children3@[i],
            ) by {
                assert(children2@[i].same(children3@[i]));
                lemma_child_decreases(a, children@, i);
                lemma_same_transitive(children@[i], children2@[i], children3@[i]);
            }
        },
        _ => {},
    }
}

impl Clone for Query {
    fn clone(&self) -> (copy: Self)
        ensures
            self.same(copy),
    {
        self.copy()
    }
}

/// How a search is to be run. The BM25 parameters are given as the bits of
/// 32-bit floating-point numbers.
#[derive(Clone, Copy, Debug, PartialEq, Eq, Structural)]
pub struct SearchOptions {
    pub limit: usize,
    pub k1: u32,
    pub b: u32,
    pub cache: bool,
}

/// The bits of 1.2, 0.75, one, infinity and negative zero.
pub const DEFAULT_K1: u32 = 0x3f99_999a;

pub const DEFAULT_B: u32 = 0x3f40_0000;

pub const ONE: u32 = 0x3f80_0000;

pub const INFINITY: u32 = 0x7f80_0000;

pub const NEGATIVE_ZERO: u32 = 0x8000_0000;

/// Whether the bits are those of a number from zero to below infinity.
/// Numbers without a sign are ordered as their bits.
pub open spec fn finite_nonnegative(bits: u32) -> bool {
    bits < INFINITY || bits == NEGATIVE_ZERO
}

/// Whether the bits are those of a number from zero to one.
pub open spec fn in_unit_range(bits: u32) -> bool {
    bits <= ONE || bits == NEGATIVE_ZERO
}

impl SearchOptions {
    pub open spec fn valid(self) -> bool {
        self.limit > 0 && finite_nonnegative(self.k1) && in_unit_range(self.b)
    }

    /// The options themselves, if a search can be run with them.
    pub fn validate(self) -> (result: Result<Self>)
        ensures
            self.valid() ==> result == Ok::<Self, Error>(self),
            self.limit == 0 ==> (result matches Err(error) && error.is_invalid_input(
                "search limit must be greater than zero"@,
            )),
            self.limit > 0 && !self.valid() ==> (result matches Err(error)
                && error.is_invalid_input("BM25 requires finite k1 >= 0 and b in 0..=1"@)),
    {
        if self.limit == 0 {
            return Err(invalid_input("search limit must be greater than zero"));
        }
        if !(self.k1 < INFINITY || self.k1 == NEGATIVE_ZERO) || !(self.b <= ONE || self.b
            == NEGATIVE_ZERO) {
            return Err(invalid_input("BM25 requires finite k1 >= 0 and b in 0..=1"));
        }
        Ok(self)
    }
}

impl Default for SearchOptions {
    fn default() -> (options: Self)
        ensures
            options.limit == 10,
            options.k1 == DEFAULT_K1,
            options.b == DEFAULT_B,
            options.cache,
    {
        SearchOptions { limit: 10, k1: DEFAULT_K1, b: DEFAULT_B, cache: true }
    }
}

/// One document that a search found.
#[derive(Debug, PartialEq)]
pub struct SearchHit {
    pub rowid: i64,
    /// The bits of the BM25 score; a larger score is better.
    pub score: u32,
    pub fields: Vec<String>,
}

/// What a search had to do.
#[derive(Clone, Copy, Debug, PartialEq, Eq, Structural)]
pub struct SearchStats {
    pub segments: usize,
    pub candidate_docs: usize,
    pub scored_docs: usize,
    pub posting_blocks: usize,
    pub skipped_blocks: usize,
    pub cache_hit: bool,
}

impl Default for SearchStats {
    fn default() -> (stats: Self)
        ensures
            stats == (SearchStats {
                segments: 0,
                candidate_docs: 0,
                scored_docs: 0,
                posting_blocks: 0,
                skipped_blocks: 0,
                cache_hit: false,
            }),
    {
        SearchStats {
            segments: 0,
            candidate_docs: 0,
            scored_docs: 0,
            posting_blocks: 0,
            skipped_blocks: 0,
            cache_hit: false,
        }
    }
}

/// What a search found in one generation of the database.
#[derive(Debug, PartialEq)]
pub struct SearchResult {
    pub hits: Vec<SearchHit>,
    pub stats: SearchStats,
    pub generation: u64,
    pub is_approximate: bool,
}

} // verus!
