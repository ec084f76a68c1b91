//! Recent results, by the generation and the query they answer.
use crate::query;
use crate::query::{Query, SearchHit, SearchOptions, SearchResult, SearchStats};
use crate::text::copy_texts;
use std::sync::Arc;
use vstd::prelude::*;

verus! {

/// How a database is opened.
#[derive(Clone, Copy, Debug, PartialEq, Eq, Structural)]
pub struct DatabaseConfig {
    /// Number of generation-scoped top-k results retained in the in-process LRU.
    pub query_cache_capacity: usize,
}

impl Default for DatabaseConfig {
    fn default() -> (config: Self)
        ensures
            config.query_cache_capacity == 256,
    {
        DatabaseConfig { query_cache_capacity: 256 }
    }
}

/// What a result depends on.
#[derive(Debug, PartialEq, Eq, Hash)]
pub struct CacheKey {
    pub generation: u64,
    pub query: Query,
    pub limit: usize,
    pub k1: u32,
    pub b: u32,
}

impl CacheKey {
    /// Whether both stand for the same question to the same generation.
    pub open spec fn same(self, other: CacheKey) -> bool {
        &&& self.generation == other.generation
        &&& self.query.same(other.query)
        &&& self.limit == other.limit
        &&& self.k1 == other.k1
        &&& self.b == other.b
    }

    /// The key of a search.
    pub fn new(generation: u64, query: &Query, options: &SearchOptions) -> (key: Self)
        ensures
            key.generation == generation,
            query.same(key.query),
            key.limit == options.limit,
            key.k1 == options.k1,
            key.b == options.b,
    {
        CacheKey {
            generation,
            query: query.copy(),
            limit: options.limit,
            k1: options.k1,
            b: options.b,
        }
    }

    /// Whether both stand for the same question to the same generation.
    pub fn is_same(&self, other: &CacheKey) -> (result: bool)
        ensures
            result == self.same(*other),
    {
        self.generation == other.generation && self.limit == other.limit && self.k1 == other.k1
            && self.b == other.b && self.query.is_same(&other.query)
    }
}

/// To be the same is an equivalence.
pub proof fn same_key_laws(a: CacheKey, b: CacheKey, c: CacheKey)
    ensures
        a.same(a),
        a.same(b) ==> b.same(a),
        a.same(b) && b.same(c) ==> a.same(c),
{
    query::same_laws(a.query, b.query, c.query);
}

impl SearchHit {
    /// Whether both show the same document with the same score.
    pub open spec fn same(self, other: SearchHit) -> bool {
        self.rowid == other.rowid && self.score == other.score && self.fields@ == other.fields@
    }
}

impl SearchResult {
    /// Whether both list the same hits of the same generation, found with the same
    /// effort.
    pub open spec fn same(self, other: SearchResult) -> bool {
        &&& self.hits@.len() == other.hits@.len()
        &&& forall|i: int| 0 <= i < self.hits@.len() ==> (#[trigger] self.hits@[i]).same(other.hits@[i])
        &&& self.stats == other.stats
        &&& self.generation == other.generation
        &&& self.is_approximate == other.is_approximate
    }

    /// A result with the same contents.
    pub fn copy(&self) -> (copy: Self)
        ensures
            self.same(copy),
    {
        let mut hits: Vec<SearchHit> = Vec::new();
        let mut done: usize = 0;
        while done < self.hits.len()
            invariant
                done <= self.hits@.len(),
                hits@.len() == done,
                forall|i: int| 0 <= i < done ==> (#[trigger] self.hits@[i]).same(hits@[i]),
            decreases self.hits@.len() - done,
        {
            let hit = &self.hits[done];
            hits.push(
                SearchHit { rowid: hit.rowid, score: hit.score, fields: copy_texts(&hit.fields) },
            );
            done = done + 1;
        }
        SearchResult {
            hits,
            stats: self.stats,
            generation: self.generation,
            is_approximate: self.is_approximate,
        }
    }

    /// The same result, marked as taken from a cache.
    pub fn from_cache(self) -> (marked: Self)
        ensures
            marked.hits == self.hits,
            marked.stats == (SearchStats { cache_hit: true, ..self.stats }),
            marked.generation == self.generation,
            marked.is_approximate == self.is_approximate,
    {
        let mut marked = self;
        marked.stats.cache_hit = true;
        marked
    }
}

impl Clone for SearchResult {
    fn clone(&self) -> (copy: Self)
        ensures
            self.same(copy),
    {
        self.copy()
    }
}

/// Whether one of the entries has this key.
pub open spec fn holds(entries: Seq<(CacheKey, Arc<SearchResult>)>, key: CacheKey) -> bool {
    exists|i: int| 0 <= i < entries.len() && (#[trigger] entries[i]).0.same(key)
}

/// Where the entry with this key stands.
pub open spec fn place(entries: Seq<(CacheKey, Arc<SearchResult>)>, key: CacheKey) -> int {
    choose|i: int| 0 <= i < entries.len() && (#[trigger] entries[i]).0.same(key)
}

/// The value under this key, if there is one.
pub open spec fn lookup(
    entries: Seq<(CacheKey, Arc<SearchResult>)>,
    key: CacheKey,
) -> Option<Arc<SearchResult>> {
    if holds(entries, key) {
        Some(entries[place(entries, key)].1)
    } else {
        None
    }
}

/// The entries when the one with this key has just been used.
pub open spec fn touched(
    entries: Seq<(CacheKey, Arc<SearchResult>)>,
    key: CacheKey,
) -> Seq<(CacheKey, Arc<SearchResult>)> {
    if holds(entries, key) {
        let at = place(entries, key);
        entries.remove(at).push(entries[at])
    } else {
        entries
    }
}

/// The entries without the one with this key.
pub open spec fn without(
    entries: Seq<(CacheKey, Arc<SearchResult>)>,
    key: CacheKey,
) -> Seq<(CacheKey, Arc<SearchResult>)> {
    if holds(entries, key) {
        entries.remove(place(entries, key))
    } else {
        entries
    }
}

/// The entries after a result has been entered: it is the last used, and the
/// first entry makes room where there are too many.
pub open spec fn entered(
    entries: Seq<(CacheKey, Arc<SearchResult>)>,
    capacity: nat,
    key: CacheKey,
    value: Arc<SearchResult>,
) -> Seq<(CacheKey, Arc<SearchResult>)> {
    let longer = without(entries, key).push((key, value));
    if capacity == 0 {
        entries
    } else if longer.len() > capacity {
        longer.skip(1)
    } else {
        longer
    }
}

/// No key stands twice.
pub open spec fn distinct_keys(entries: Seq<(CacheKey, Arc<SearchResult>)>) -> bool {
    forall|i: int, j: int|
        0 <= i < j < entries.len() ==> !(#[trigger] entries[i]).0.same((#[trigger] entries[j]).0)
}

/// A bounded number of results; the least recently used one makes room.
#[derive(Debug)]
pub struct QueryCache {
    pub capacity: usize,
    /// The least recently used entry stands first.
    pub entries: Vec<(CacheKey, Arc<SearchResult>)>,
}

impl QueryCache {
    pub open spec fn wf(self) -> bool {
        self.entries@.len() <= self.capacity && distinct_keys(self.entries@)
    }

    /// An empty cache for `capacity` results.
    pub fn new(capacity: usize) -> (cache: Self)
        ensures
            cache.wf(),
            cache.capacity == capacity,
            cache.entries@.len() == 0,
    {
        QueryCache { capacity, entries: Vec::new() }
    }

    /// Where the entry with this key stands, if there is one.
    fn find(&self, key: &CacheKey) -> (at: Option<usize>)
        requires
            self.wf(),
        ensures
            match at {
                Some(at) => holds(self.entries@, *key) && at == place(self.entries@, *key) && at
                    < self.entries@.len(),
                None => !holds(self.entries@, *key),
            },
    {
        let mut index: usize = 0;
        while index < self.entries.len()
            invariant
                index <= self.entries@.len(),
                self.wf(),
                forall|i: int| 0 <= i < index ==> !(#[trigger] self.entries@[i]).0.same(*key),
            decreases self.entries@.len() - index,
        {
            if self.entries[index].0.is_same(key) {
                proof {
                    lemma_place(self.entries@, *key, index as int);
                }
                return Some(index);
            }
            index = index + 1;
        }
        None
    }

    /// The result under this key, which is then the last used.
    pub fn get(&mut self, key: &CacheKey) -> (result: Option<SearchResult>)
        requires
            old(self).wf(),
        ensures
            final(self).wf(),
            final(self).capacity == old(self).capacity,
            final(self).entries@ == touched(old(self).entries@, *key),
            match result {
                Some(found) => lookup(old(self).entries@, *key) matches Some(kept) && kept.same(
                    found,
                ),
                None => lookup(old(self).entries@, *key) is None,
            },
    {
        match self.find(key) {
            Some(at) => {
                let ghost before = self.entries@;
                let entry = self.entries.remove(at);
                let result = entry.1.copy();
                self.entries.push(entry);
                proof {
                    lemma_touched(before, *key);
                }
                Some(result)
            },
            None => None,
        }
    }

    /// Enters a result; it is then the last used.
    pub fn insert(&mut self, key: CacheKey, value: Arc<SearchResult>)
        requires
            old(self).wf(),
        ensures
            final(self).wf(),
            final(self).capacity == old(self).capacity,
            final(self).entries@ == entered(
                old(self).entries@,
                old(self).capacity as nat,
                key,
                value,
            ),
    {
        if self.capacity == 0 {
            return;
        }
        let ghost before = self.entries@;
        proof {
            lemma_entered(before, self.capacity as nat, key, value);
        }
        if let Some(at) = self.find(&key) {
            self.entries.remove(at);
        }
        let ghost kept = self.entries@;
        self.entries.push((key, value));
        if self.entries.len() > self.capacity {
            self.entries.remove(0);
            assert(self.entries@ =~= kept.push((key, value)).skip(1));
        }
    }

    /// Forgets all results.
    pub fn clear(&mut self)
        ensures
            final(self).wf(),
            final(self).capacity == old(self).capacity,
            final(self).entries@.len() == 0,
    {
        self.entries.clear();
    }
}

/// A key stands in one place.
pub(crate) proof fn lemma_place(entries: Seq<(CacheKey, Arc<SearchResult>)>, key: CacheKey, index: int)
    requires
        distinct_keys(entries),
        0 <= index < entries.len(),
        entries[index].0.same(key),
    ensures
        holds(entries, key),
        place(entries, key) == index,
{
    let at = place(entries, key);
    assert(entries[at].0.same(key));
    let (a, b) = (entries[at].0, entries[index].0);
    same_key_laws(a, key, b);
    same_key_laws(b, key, a);
    same_key_laws(key, a, b);
    same_key_laws(key, b, a);
    if at < index {
        assert(!entries[at].0.same(entries[index].0));
    } else if index < at {
        assert(!entries[index].0.same(entries[at].0));
    }
}

/// Without an entry all others keep their order.
proof fn lemma_without(entries: Seq<(CacheKey, Arc<SearchResult>)>, key: CacheKey)
    requires
        distinct_keys(entries),
    ensures
        distinct_keys(without(entries, key)),
        forall|i: int|
            0 <= i < without(entries, key).len() ==> !(#[trigger] without(
                entries,
                key,
            )[i]).0.same(key),
        without(entries, key).len() == entries.len() - if holds(entries, key) {
            1int
        } else {
            0
        },
{
    let rest = without(entries, key);
    if holds(entries, key) {
        let at = place(entries, key);
        assert(entries[at].0.same(key));
        assert forall|i: int, j: int| 0 <= i < j < rest.len() implies !(
        #[trigger] rest[i]).0.same((#[trigger] rest[j]).0) by {
            let (x, y) = (
                if i < at {
                    i
                } else {
                    i + 1
                },
                if j < at {
                    j
                } else {
                    j + 1
                },
            );
            assert(!entries[x].0.same(entries[y].0));
        }
        assert forall|i: int| 0 <= i < rest.len() implies !(#[trigger] rest[i]).0.same(key) by {
            let x = if i < at {
                i
            } else {
                i + 1
            };
            if rest[i].0.same(key) {
                lemma_place(entries, key, x);
            }
        }
    }
}

pub(crate) proof fn lemma_touched(entries: Seq<(CacheKey, Arc<SearchResult>)>, key: CacheKey)
    requires
        distinct_keys(entries),
        holds(entries, key),
    ensures
        distinct_keys(touched(entries, key)),
        touched(entries, key).len() == entries.len(),
{
    let at = place(entries, key);
    let rest = without(entries, key);
    let after = touched(entries, key);
    lemma_without(entries, key);
    assert(after =~= rest.push(entries[at]));
    assert forall|i: int, j: int| 0 <= i < j < after.len() implies !(#[trigger] after[i]).0.same(
        (#[trigger] after[j]).0,
    ) by {
        if j == rest.len() {
            assert(!rest[i].0.same(key));
            assert(entries[at].0.same(key));
            same_key_laws(rest[i].0, entries[at].0, key);
        }
    }
}

proof fn lemma_entered(
    entries: Seq<(CacheKey, Arc<SearchResult>)>,
    capacity: nat,
    key: CacheKey,
    value: Arc<SearchResult>,
)
    requires
        distinct_keys(entries),
        entries.len() <= capacity,
        capacity > 0,
    ensures
        distinct_keys(entered(entries, capacity, key, value)),
        entered(entries, capacity, key, value).len() <= capacity,
{
    let rest = without(entries, key);
    lemma_without(entries, key);
    let longer = rest.push((key, value));
    assert forall|i: int, j: int| 0 <= i < j < longer.len() implies !(
    #[trigger] longer[i]).0.same((#[trigger] longer[j]).0) by {
        if j == rest.len() {
            assert(!rest[i].0.same(key));
        }
    }
    let after = entered(entries, capacity, key, value);
    assert forall|i: int, j: int| 0 <= i < j < after.len() implies !(#[trigger] after[i]).0.same(
        (#[trigger] after[j]).0,
    ) by {
        if longer.len() > capacity {
            assert(!longer[i + 1].0.same(longer[j + 1].0));
        } else {
            assert(!longer[i].0.same(longer[j].0));
        }
    }
}

/// A cache with room for results gives back what was entered under a key, and only
/// under keys of the same generation.
pub proof fn entered_result_is_found(
    entries: Seq<(CacheKey, Arc<SearchResult>)>,
    capacity: nat,
    key: CacheKey,
    value: Arc<SearchResult>,
    asked: CacheKey,
)
    requires
        distinct_keys(entries),
        entries.len() <= capacity,
        capacity > 0,
    ensures
        ({
            let after = entered(entries, capacity, key, value);
            &&& key.same(asked) ==> lookup(after, asked) == Some(value)
            &&& !key.same(asked) && holds(after, asked) ==> lookup(after, asked) == lookup(
                entries,
                asked,
            )
            &&& key.generation != asked.generation ==> !key.same(asked)
        }),
{
    let after = entered(entries, capacity, key, value);
    let rest = without(entries, key);
    let longer = rest.push((key, value));
    lemma_entered(entries, capacity, key, value);
    lemma_without(entries, key);
    let last = after.len() - 1;
    assert(after[last] == (key, value));
    if key.same(asked) {
        lemma_place(after, asked, last);
    } else if holds(after, asked) {
        let i = place(after, asked);
        assert(after[i].0.same(asked));
        let in_longer = if longer.len() > capacity {
            i + 1
        } else {
            i
        };
        assert(longer[in_longer] == after[i]);
        assert(in_longer < rest.len());
        let at = place(entries, key);
        let in_entries = if holds(entries, key) && in_longer >= at {
            in_longer + 1
        } else {
            in_longer
        };
        assert(entries[in_entries] == after[i]);
        lemma_place(entries, asked, in_entries);
    }
}

/// What makes room is the entry that was used longest ago: all others stay.
pub proof fn least_recently_used_makes_room(
    entries: Seq<(CacheKey, Arc<SearchResult>)>,
    capacity: nat,
    key: CacheKey,
    value: Arc<SearchResult>,
    index: int,
)
    requires
        distinct_keys(entries),
        entries.len() <= capacity,
        !holds(entries, key),
        0 <= index < entries.len(),
        index > 0 || entries.len() < capacity,
    ensures
        lookup(entered(entries, capacity, key, value), entries[index].0) == Some(entries[index].1),
{
    let after = entered(entries, capacity, key, value);
    let longer = entries.push((key, value));
    lemma_entered(entries, capacity, key, value);
    let place = if longer.len() > capacity {
        index - 1
    } else {
        index
    };
    assert(after[place] == entries[index]);
    same_key_laws(entries[index].0, key, key);
    lemma_place(after, entries[index].0, place);
}

/// Into how many shards results are divided.
pub fn shard_count(total_capacity: usize) -> (count: usize)
    ensures
        count == if total_capacity < 1 {
            1
        } else if total_capacity > 16 {
            16
        } else {
            total_capacity
        },
{
    if total_capacity < 1 {
        1
    } else if total_capacity > 16 {
        16
    } else {
        total_capacity
    }
}

/// How many of `total` results the shard at this index retains.
pub open spec fn share(total: nat, shards: nat, index: nat) -> nat
    recommends
        index < shards,
{
    total / shards + if index < total % shards {
        1nat
    } else {
        0nat
    }
}

/// How many results the first shards retain together.
pub open spec fn shares(total: nat, shards: nat, done: nat) -> nat
    decreases done,
{
    if done == 0 {
        0
    } else {
        shares(total, shards, (done - 1) as nat) + share(total, shards, (done - 1) as nat)
    }
}

/// How many of `total` results the shard at this index retains.
pub fn shard_capacity(total: usize, shards: usize, index: usize) -> (capacity: usize)
    requires
        index < shards,
    ensures
        capacity == share(total as nat, shards as nat, index as nat),
        capacity <= total,
{
    let whole: usize = total / shards;
    proof {
        vstd::arithmetic::div_mod::lemma_fundamental_div_mod(total as int, shards as int);
        assert(whole <= shards * whole) by (nonlinear_arith)
            requires
                shards >= 1,
                whole >= 0,
        ;
    }
    if index < total % shards {
        whole + 1
    } else {
        whole
    }
}

proof fn lemma_shares(total: nat, shards: nat, done: nat)
    requires
        0 < shards,
        done <= shards,
    ensures
        shares(total, shards, done) == done * (total / shards) + if done < total % shards {
            done
        } else {
            total % shards
        },
    decreases done,
{
    let whole = total / shards;
    if done > 0 {
        lemma_shares(total, shards, (done - 1) as nat);
        assert(done * whole == (done - 1) * whole + whole) by (nonlinear_arith);
    } else {
        assert(0 * whole == 0);
    }
}

/// The shards together retain as many results as are asked for.
pub proof fn shares_add_up(total: nat, shards: nat)
    requires
        0 < shards,
    ensures
        shares(total, shards, shards) == total,
{
    lemma_shares(total, shards, shards);
    vstd::arithmetic::div_mod::lemma_fundamental_div_mod(total as int, shards as int);
}

/// The shard of a key with this hash.
pub fn shard_index(hash: u64, shards: usize) -> (index: usize)
    requires
        shards > 0,
    ensures
        index < shards,
        index == (hash as usize) % shards,
{
    (hash as usize) % shards
}

} // verus!
