use std::sync::Arc;

use kestrel::cache::{CacheKey, QueryCache};
use kestrel::checkpoint::{
    is_checkpoint_name, keep_newer, read_checkpoint, LEGACY_SEGMENT_MAGIC, SEGMENT_MAGIC,
};
use kestrel::commit::encode_commit;
use kestrel::decoding::decode_snapshot;
use kestrel::encoding::encode_snapshot;
use kestrel::error::{Error, Result};
use kestrel::operation::{Operation, Transaction};
use kestrel::query::{Query, SearchOptions, SearchResult};
use kestrel::recovery::recover;
use kestrel::scorer::Scorer;
use kestrel::scoring::is_anchored;
use kestrel::snapshot::Snapshot;
use kestrel::wal::{encode_frame, read_wal};
use kestrel::writer::{begin_commit, next_generation};

/// BM25 over the terms of one query.
struct Bm25 {
    idf: Vec<f32>,
    avgdl: f32,
    k1: f32,
    b: f32,
}

impl Bm25 {
    fn new(snapshot: &Snapshot, query: &Query, options: &SearchOptions) -> Self {
        let n = snapshot.live_docs as f32;
        let idf = snapshot
            .expanded_scoring_terms(query)
            .iter()
            .map(|term| {
                let df = snapshot.document_frequency(term) as f32;
                ((n - df + 0.5) / (df + 0.5) + 1.0).ln()
            })
            .collect();
        let avgdl = if snapshot.live_docs == 0 {
            1.0
        } else {
            snapshot.total_doc_len as f32 / n
        };
        Bm25 {
            idf,
            avgdl,
            k1: f32::from_bits(options.k1),
            b: f32::from_bits(options.b),
        }
    }

    fn weight(&self, ordinal: usize, freq: u32, doc_len: u32) -> f32 {
        if freq == 0 {
            return 0.0;
        }
        let budget = self.k1 * (1.0 - self.b + self.b * doc_len as f32 / self.avgdl.max(1.0));
        let f = freq as f32;
        self.idf[ordinal] * (f * (self.k1 + 1.0)) / (f + budget)
    }
}

impl Scorer for Bm25 {
    fn start(&self) -> u32 {
        std::iter::empty::<f32>().sum::<f32>().to_bits()
    }

    fn add_term(&self, score: u32, ordinal: usize, freq: u32, doc_len: u32) -> u32 {
        (f32::from_bits(score) + self.weight(ordinal, freq, doc_len)).to_bits()
    }

    fn bound(
        &self,
        ordinal: usize,
        list_tf: u32,
        list_len: u32,
        max_tf: u32,
        min_doc_len: u32,
    ) -> u32 {
        let scale = self.weight(ordinal, list_tf, list_len) / f32::from(u16::MAX);
        let exact = self.weight(ordinal, max_tf, min_doc_len);
        let steps = if exact <= 0.0 || scale <= 0.0 {
            0
        } else {
            (exact / scale).ceil().min(u16::MAX as f32) as u16
        };
        let bound = f32::from(steps) * scale;
        if bound > 0.0 && bound.is_finite() {
            bound.to_bits() + 1
        } else {
            bound.to_bits()
        }
    }

    fn join(&self, total: u64, bound: u32) -> u64 {
        (f64::from_bits(total) + f64::from(f32::from_bits(bound))).to_bits()
    }

    fn reaches(&self, total: u64, score: u32) -> bool {
        f64::from_bits(total) >= f64::from(f32::from_bits(score))
    }

    fn below(&self, total: u64, score: u32) -> bool {
        f64::from_bits(total) < f64::from(f32::from_bits(score))
    }
}

/// A database whose files are byte strings.
struct Store {
    wal: Vec<u8>,
    checkpoints: Vec<Vec<u8>>,
    snapshot: Snapshot,
    cache: QueryCache,
}

impl Store {
    fn open(checkpoints: Vec<Vec<u8>>, mut wal: Vec<u8>) -> Result<Self> {
        let mut best = None;
        for file in &checkpoints {
            best = keep_newer(best, file);
        }
        let (snapshot, valid) = recover(best, &wal)?.expect("too many documents");
        wal.truncate(valid);
        Ok(Store {
            wal,
            checkpoints,
            snapshot,
            cache: QueryCache::new(256),
        })
    }

    fn new() -> Self {
        Store::open(Vec::new(), Vec::new()).unwrap()
    }

    fn reopen(self) -> Result<Self> {
        Store::open(self.checkpoints, self.wal)
    }

    fn commit(&mut self, transaction: Transaction) -> Result<u64> {
        let operations = transaction.commit()?;
        let count = operations.len();
        let Some(mut prepared) = begin_commit(operations)? else {
            return Ok(self.snapshot.generation);
        };
        let generation = next_generation(&self.snapshot)?;
        let frame = prepared.seal(generation)?;
        self.wal.extend_from_slice(&frame);
        assert!(self.snapshot.has_room(count));
        self.snapshot = prepared.publish(&self.snapshot, generation);
        self.cache.clear();
        Ok(generation)
    }

    fn optimize(&mut self) -> Result<()> {
        let compacted = self.snapshot.compacted();
        let payload = encode_snapshot(&compacted)?;
        self.checkpoints = vec![encode_frame(&SEGMENT_MAGIC, &payload)?];
        self.wal.clear();
        self.snapshot = compacted;
        self.cache.clear();
        Ok(())
    }

    fn run(&self, query: &Query, options: SearchOptions, exhaustive: bool) -> Result<SearchResult> {
        let options = options.validate()?;
        let scorer = Bm25::new(&self.snapshot, query, &options);
        Ok(self.snapshot.search(query, options, exhaustive, &scorer))
    }

    fn search(&mut self, query: &Query, options: SearchOptions) -> Result<SearchResult> {
        let options = options.validate()?;
        let key = CacheKey::new(self.snapshot.generation, query, &options);
        if options.cache {
            if let Some(result) = self.cache.get(&key) {
                return Ok(result.from_cache());
            }
        }
        let result = self.run(query, options, false)?;
        if options.cache {
            self.cache.insert(key, Arc::new(result.copy()));
        }
        Ok(result)
    }

    fn put(&mut self, rowid: i64, text: &str) -> u64 {
        let mut tx = Transaction::begin();
        tx.upsert_text(rowid, text.to_owned()).unwrap();
        self.commit(tx).unwrap()
    }

    fn ids(&mut self, query: &Query) -> Vec<i64> {
        let options = SearchOptions {
            limit: 100,
            ..SearchOptions::default()
        };
        let mut ids: Vec<_> = self
            .search(query, options)
            .unwrap()
            .hits
            .into_iter()
            .map(|hit| hit.rowid)
            .collect();
        ids.sort_unstable();
        ids
    }

    fn ranking(&self, query: &Query, options: SearchOptions, exhaustive: bool) -> Vec<(i64, u32)> {
        self.run(query, options, exhaustive)
            .unwrap()
            .hits
            .iter()
            .map(|hit| (hit.rowid, hit.score))
            .collect()
    }
}

fn fields(texts: &[&str]) -> Vec<String> {
    texts.iter().map(|text| (*text).to_owned()).collect()
}

fn uncached(limit: usize) -> SearchOptions {
    SearchOptions {
        limit,
        cache: false,
        ..SearchOptions::default()
    }
}

fn random_document(state: &mut u64) -> String {
    let terms = 5 + (next_random(state) % 20);
    (0..terms)
        .map(|_| format!("t{:02}", next_random(state) % 32))
        .collect::<Vec<_>>()
        .join(" ")
}

fn next_random(state: &mut u64) -> u64 {
    *state = state
        .wrapping_mul(6_364_136_223_846_793_005)
        .wrapping_add(1_442_695_040_888_963_407);
    *state
}

#[test]
fn transaction_reopens_and_rollback_is_invisible() {
    let mut db = Store::new();
    let mut tx = Transaction::begin();
    tx.upsert_text(10, "fast embedded search".to_owned()).unwrap();
    tx.upsert_text(20, "durable database".to_owned()).unwrap();
    assert_eq!(db.commit(tx).unwrap(), 1);
    let mut rolled_back = Transaction::begin();
    rolled_back.upsert_text(30, "never visible".to_owned()).unwrap();
    rolled_back.rollback().unwrap();
    assert_eq!(db.snapshot.live_docs, 2);

    let mut db = db.reopen().unwrap();
    assert_eq!(db.snapshot.live_docs, 2);
    assert_eq!(
        db.search(&Query::term("search"), SearchOptions::default())
            .unwrap()
            .hits[0]
            .rowid,
        10
    );
    assert!(db.snapshot.get(30).is_none());
}

#[test]
fn torn_wal_tail_is_discarded() {
    let mut db = Store::new();
    db.put(1, "committed");
    let committed_len = db.wal.len();
    db.wal.extend_from_slice(b"KST");
    let db = db.reopen().unwrap();
    assert_eq!(db.snapshot.live_docs, 1);
    assert_eq!(db.wal.len(), committed_len);
}

#[test]
fn corruption_before_wal_tail_is_rejected() {
    let mut db = Store::new();
    for rowid in 1..=2 {
        db.put(rowid, &format!("commit {rowid}"));
    }
    db.wal[20] ^= 0x80;
    assert!(matches!(db.reopen(), Err(Error::Corrupt(_))));
}

#[test]
fn checkpoint_restores_compacted_view() {
    let mut db = Store::new();
    db.put(1, "old value");
    let mut tx = Transaction::begin();
    tx.upsert_text(1, "new value".to_owned()).unwrap();
    tx.upsert_text(2, "keep me".to_owned()).unwrap();
    db.commit(tx).unwrap();
    db.optimize().unwrap();
    assert_eq!(db.wal.len(), 0);
    assert_eq!(&db.checkpoints[0][..8], b"KSTSEG02");
    assert_eq!(db.put(3, "written after checkpoint"), 3);
    db.optimize().unwrap();
    assert_eq!(db.checkpoints.len(), 1);

    let mut db = db.reopen().unwrap();
    assert_eq!(db.snapshot.live_docs, 3);
    assert_eq!(db.snapshot.generation, 3);
    assert_eq!(db.snapshot.get(1).unwrap(), ["new value"]);
    assert_eq!(db.snapshot.get(3).unwrap(), ["written after checkpoint"]);
    assert_eq!(db.put(4, "new WAL generation"), 4);
    let reopened = db.reopen().unwrap();
    assert_eq!(reopened.snapshot.generation, 4);
    assert_eq!(reopened.snapshot.live_docs, 4);
}

#[test]
fn native_checkpoint_restores_query_ready_postings() {
    let mut snapshot = Snapshot::default().with_commit(
        9,
        vec![
            (1, vec!["alpha beta beta".to_owned()]),
            (2, vec!["alpha gamma".to_owned()]),
        ],
        Vec::new(),
    );
    Arc::get_mut(&mut snapshot.segments[0]).unwrap().docs[0].fields[0] =
        "stored field deliberately differs".to_owned();
    let payload = encode_snapshot(&snapshot).unwrap();
    let file = encode_frame(&SEGMENT_MAGIC, &payload).unwrap();

    let restored = read_checkpoint(&file).unwrap();
    let options = uncached(10);
    let query = Query::term("beta");
    let scorer = Bm25::new(&restored, &query, &options);
    let result = restored.search(&query, options, false, &scorer);
    assert_eq!(result.hits.len(), 1);
    assert_eq!(result.hits[0].rowid, 1);
    assert_eq!(result.hits[0].fields, ["stored field deliberately differs"]);
    let query = Query::term("deliberately");
    let scorer = Bm25::new(&restored, &query, &options);
    assert!(restored.search(&query, options, false, &scorer).hits.is_empty());
}

#[test]
fn legacy_document_checkpoint_remains_readable() {
    let operations = vec![Operation::Upsert {
        rowid: 41,
        fields: vec!["legacy searchable checkpoint".to_owned()],
    }];
    let payload = encode_commit(7, &operations).unwrap();
    let file = encode_frame(&LEGACY_SEGMENT_MAGIC, &payload).unwrap();
    assert!(is_checkpoint_name("segment-7-legacy.kst"));

    let mut db = Store::open(vec![file], Vec::new()).unwrap();
    assert_eq!(db.snapshot.generation, 7);
    assert_eq!(db.snapshot.get(41).unwrap(), ["legacy searchable checkpoint"]);
    assert_eq!(
        db.search(&Query::term("searchable"), SearchOptions::default())
            .unwrap()
            .hits[0]
            .rowid,
        41
    );
}

#[test]
fn typed_boolean_phrase_prefix_and_delete() {
    let mut db = Store::new();
    let mut tx = Transaction::begin();
    tx.upsert(1, fields(&["Rust search", "fast embedded database"]))
        .unwrap();
    tx.upsert(2, fields(&["Rust database", "full text engine"]))
        .unwrap();
    tx.upsert(3, fields(&["Other", "embedded search system"]))
        .unwrap();
    db.commit(tx).unwrap();

    let and = Query::and(vec![Query::term("rust"), Query::term("database")]);
    assert_eq!(db.ids(&and), [1, 2]);
    assert_eq!(db.ids(&Query::phrase(&["embedded", "database"])), [1]);
    assert_eq!(db.ids(&Query::prefix("eng")), [2]);
    assert_eq!(
        db.ids(&Query::and(vec![
            Query::term("rust"),
            Query::negate(Query::term("engine"))
        ])),
        [1]
    );

    let mut tx = Transaction::begin();
    tx.delete(1).unwrap();
    tx.upsert_text(2, "replacement without old terms".to_owned())
        .unwrap();
    db.commit(tx).unwrap();
    assert!(db.ids(&Query::term("rust")).is_empty());
}

#[test]
fn prefix_ranges_across_segments_ignore_terms_with_no_live_documents() {
    let mut db = Store::new();
    db.put(1, "apple obsolete");
    let mut second = Transaction::begin();
    second.upsert_text(1, "banana replacement".to_owned()).unwrap();
    second.upsert_text(2, "application live".to_owned()).unwrap();
    db.commit(second).unwrap();
    assert_eq!(db.ids(&Query::prefix("app")), [2]);
}

#[test]
fn cjk_bigrams_are_searchable() {
    let mut db = Store::new();
    db.put(7, "这是全文检索数据库");
    assert_eq!(db.ids(&Query::term("全文")), [7]);
    assert_eq!(db.ids(&Query::phrase(&["全文", "文检", "检索"])), [7]);
}

#[test]
fn column_and_near_queries_verify_positions_after_candidate_generation() {
    let mut db = Store::new();
    let mut tx = Transaction::begin();
    tx.upsert(1, fields(&["rust engine", "embedded database search"]))
        .unwrap();
    tx.upsert(2, fields(&["database", "rust fast engine search"]))
        .unwrap();
    tx.upsert(3, fields(&["rust", "engine separated across columns"]))
        .unwrap();
    tx.upsert(4, fields(&["rust once", "nothing nearby"])).unwrap();
    tx.upsert(5, fields(&["rust rust", "two occurrences"])).unwrap();
    db.commit(tx).unwrap();

    assert_eq!(db.ids(&Query::column(0, Query::term("engine"))), [1]);
    assert_eq!(db.ids(&Query::column(1, Query::term("engine"))), [2, 3]);
    assert_eq!(db.ids(&Query::near(&["rust", "engine"], 2)), [1, 2]);
    assert_eq!(
        db.ids(&Query::column(1, Query::near(&["rust", "engine"], 2))),
        [2]
    );
    assert_eq!(db.ids(&Query::near(&["rust", "rust"], 1)), [5]);
    assert!(db
        .ids(&Query::column(0, Query::column(1, Query::term("engine"))))
        .is_empty());
}

#[test]
fn pruned_results_equal_exhaustive_results() {
    let mut db = Store::new();
    for batch in 0..8 {
        let mut tx = Transaction::begin();
        for i in 0..180 {
            let id = batch * 180 + i;
            let mut text = String::from("common ");
            if id % 2 == 0 {
                text.push_str("even ");
            }
            if id % 3 == 0 {
                text.push_str("third ");
            }
            if id % 17 == 0 {
                text.push_str("rare rare rare ");
            }
            text.push_str(&format!("group{}", id % 11));
            tx.upsert_text(id, text).unwrap();
        }
        db.commit(tx).unwrap();
    }
    let queries = [
        Query::term("common"),
        Query::or(vec![Query::term("rare"), Query::term("third")]),
        Query::and(vec![Query::term("common"), Query::term("even")]),
        Query::prefix("group"),
    ];
    for query in queries {
        for limit in [1, 3, 10, 50] {
            let options = uncached(limit);
            assert_eq!(
                db.ranking(&query, options, false),
                db.ranking(&query, options, true)
            );
        }
    }

    let measured = db
        .search(
            &Query::or(vec![
                Query::term("rare"),
                Query::term("third"),
                Query::term("common"),
            ]),
            uncached(10),
        )
        .unwrap();
    assert!(measured.stats.skipped_blocks > 0);
    assert!(measured.stats.scored_docs < db.snapshot.live_docs as usize);
}

#[test]
fn cache_is_generation_scoped_and_invalidated() {
    let mut db = Store::new();
    db.put(1, "cached query");
    let query = Query::term("cached");
    assert!(
        !db.search(&query, SearchOptions::default())
            .unwrap()
            .stats
            .cache_hit
    );
    assert!(
        db.search(&query, SearchOptions::default())
            .unwrap()
            .stats
            .cache_hit
    );
    db.put(2, "cached again");
    assert!(
        !db.search(&query, SearchOptions::default())
            .unwrap()
            .stats
            .cache_hit
    );
}

#[test]
fn randomized_pruning_matches_exhaustive_across_segments_and_updates() {
    let mut db = Store::new();
    let mut state = 0x4d59_5df4_d0f3_3173_u64;

    for batch in 0..6_i64 {
        let mut tx = Transaction::begin();
        for offset in 0..200_i64 {
            let rowid = batch * 200 + offset;
            tx.upsert_text(rowid, random_document(&mut state)).unwrap();
        }
        db.commit(tx).unwrap();
    }
    let mut mutations = Transaction::begin();
    for rowid in (0..180_i64).step_by(3) {
        mutations
            .upsert_text(rowid, random_document(&mut state))
            .unwrap();
    }
    for rowid in (1..180_i64).step_by(7) {
        mutations.delete(rowid).unwrap();
    }
    db.commit(mutations).unwrap();

    for round in 0..200 {
        let left = format!("t{:02}", next_random(&mut state) % 32);
        let right = format!("t{:02}", next_random(&mut state) % 32);
        let query = match round % 6 {
            0 => Query::term(&left),
            1 => Query::or(vec![Query::term(&left), Query::term(&right)]),
            2 => Query::and(vec![Query::term(&left), Query::term(&right)]),
            3 => Query::phrase(&[left.as_str(), right.as_str()]),
            4 => Query::prefix(&format!("t{}", next_random(&mut state) % 3)),
            _ => Query::and(vec![
                Query::term(&left),
                Query::negate(Query::term(&right)),
            ]),
        };
        let options = uncached((next_random(&mut state) as usize % 20) + 1);
        assert_eq!(
            db.ranking(&query, options, false),
            db.ranking(&query, options, true),
            "query {query:?}"
        );
    }
}

#[test]
fn equal_scores_keep_smallest_rowids_across_commit_order() {
    let mut db = Store::new();
    for rowids in [(100..200).collect::<Vec<_>>(), (0..100).collect()] {
        let mut tx = Transaction::begin();
        for rowid in rowids {
            tx.upsert_text(rowid, "identical".to_owned()).unwrap();
        }
        db.commit(tx).unwrap();
    }
    let result = db.search(&Query::term("identical"), uncached(10)).unwrap();
    assert_eq!(
        result.hits.iter().map(|hit| hit.rowid).collect::<Vec<_>>(),
        (0..10).collect::<Vec<_>>()
    );
}

#[test]
fn native_checkpoint_preserves_exact_queries_after_reopen() {
    let mut db = Store::new();
    for batch in 0..5_i64 {
        let mut tx = Transaction::begin();
        for offset in 0..240_i64 {
            let rowid = batch * 240 + offset;
            let text = format!(
                "common t{:02} t{:02} ordered phrase{}",
                rowid % 29,
                (rowid * 7) % 29,
                rowid % 13
            );
            tx.upsert_text(rowid, text).unwrap();
        }
        db.commit(tx).unwrap();
    }
    let mut changes = Transaction::begin();
    for rowid in (0..300_i64).step_by(11) {
        changes
            .upsert_text(rowid, format!("replacement t{:02} exact", rowid % 29))
            .unwrap();
    }
    for rowid in (3..300_i64).step_by(17) {
        changes.delete(rowid).unwrap();
    }
    db.commit(changes).unwrap();

    let queries = [
        Query::term("common"),
        Query::or(vec![Query::term("t03"), Query::term("t17")]),
        Query::and(vec![Query::term("common"), Query::term("t09")]),
        Query::phrase(&["ordered", "phrase4"]),
        Query::prefix("t2"),
        Query::near(&["common", "ordered"], 3),
    ];
    let options = uncached(37);
    let answer = |db: &mut Store, query: &Query| {
        db.search(query, options)
            .unwrap()
            .hits
            .into_iter()
            .map(|hit| (hit.rowid, hit.score, hit.fields))
            .collect::<Vec<_>>()
    };
    let mut expected = Vec::new();
    for query in &queries {
        expected.push(answer(&mut db, query));
    }
    db.optimize().unwrap();

    let mut reopened = db.reopen().unwrap();
    for (query, expected) in queries.iter().zip(expected) {
        let actual = answer(&mut reopened, query);
        assert_eq!(actual, expected, "query {query:?}");
    }
}

#[test]
fn the_last_write_to_a_rowid_counts() {
    let mut db = Store::new();
    let mut tx = Transaction::begin();
    tx.upsert_text(1, "first".to_owned()).unwrap();
    tx.delete(1).unwrap();
    tx.upsert_text(1, "second".to_owned()).unwrap();
    tx.upsert_text(2, "gone".to_owned()).unwrap();
    tx.delete(2).unwrap();
    db.commit(tx).unwrap();
    assert_eq!(db.snapshot.get(1).unwrap(), ["second"]);
    assert!(db.snapshot.get(2).is_none());

    let (commits, valid) = read_wal(&db.wal).unwrap();
    assert_eq!(valid, db.wal.len());
    assert_eq!(commits.len(), 1);
    assert_eq!(commits[0].0, 1);
    assert_eq!(
        commits[0].1,
        [
            Operation::Upsert {
                rowid: 1,
                fields: vec!["second".to_owned()]
            },
            Operation::Delete { rowid: 2 }
        ]
    );
}

#[test]
fn empty_transactions_leave_no_trace() {
    let mut db = Store::new();
    assert_eq!(db.commit(Transaction::begin()).unwrap(), 0);
    assert!(db.wal.is_empty());
    assert_eq!(db.put(1, "x"), 1);
    assert_eq!(db.commit(Transaction::begin()).unwrap(), 1);
}

#[test]
fn a_log_cut_anywhere_keeps_its_complete_commits() {
    let mut db = Store::new();
    db.put(1, "one");
    let first = db.wal.len();
    db.put(2, "two");
    let whole = db.wal.clone();
    for kept in first..whole.len() {
        let db = Store::open(Vec::new(), whole[..kept].to_vec()).unwrap();
        assert_eq!(db.wal.len(), first);
        assert_eq!(db.snapshot.generation, 1);
        assert_eq!(db.snapshot.get(1).unwrap(), ["one"]);
        assert!(db.snapshot.get(2).is_none());
    }
    let db = Store::open(Vec::new(), whole.clone()).unwrap();
    assert_eq!(db.snapshot.generation, 2);
    assert_eq!(db.wal.len(), whole.len());
}

#[test]
fn a_checkpoint_makes_its_log_superfluous() {
    let mut db = Store::new();
    db.put(1, "one");
    db.put(2, "two");
    db.put(1, "uno");
    let log = db.wal.clone();
    db.optimize().unwrap();
    let files = db.checkpoints.clone();

    let with_log = Store::open(files.clone(), log).unwrap();
    let without_log = Store::open(files, Vec::new()).unwrap();
    for db in [with_log, without_log] {
        assert_eq!(db.snapshot.generation, 3);
        assert_eq!(db.snapshot.live_docs, 2);
        assert_eq!(db.snapshot.get(1).unwrap(), ["uno"]);
        assert_eq!(db.snapshot.get(2).unwrap(), ["two"]);
    }
}

#[test]
fn the_newest_readable_checkpoint_is_opened() {
    let mut db = Store::new();
    db.put(1, "old");
    db.optimize().unwrap();
    let old = db.checkpoints[0].clone();
    db.put(1, "new");
    db.optimize().unwrap();
    let new = db.checkpoints[0].clone();
    let mut broken = new.clone();
    let last = broken.len() - 1;
    broken[last] ^= 1;

    let db = Store::open(vec![old.clone(), new.clone()], Vec::new()).unwrap();
    assert_eq!(db.snapshot.generation, 2);
    let db = Store::open(vec![new, old.clone()], Vec::new()).unwrap();
    assert_eq!(db.snapshot.generation, 2);
    let db = Store::open(vec![broken, old], Vec::new()).unwrap();
    assert_eq!(db.snapshot.generation, 1);
    assert_eq!(db.snapshot.get(1).unwrap(), ["old"]);
}

#[test]
fn snapshots_do_not_see_later_commits() {
    let first = Snapshot::default().with_commit(
        1,
        vec![(1, fields(&["alpha"])), (2, fields(&["alpha beta"]))],
        Vec::new(),
    );
    let second = first.with_commit(2, vec![(1, fields(&["gamma"]))], vec![2]);
    assert_eq!(first.live_docs, 2);
    assert_eq!(first.get(2).unwrap(), ["alpha beta"]);
    assert_eq!(first.document_frequency("alpha"), 2);
    assert_eq!(second.live_docs, 1);
    assert_eq!(second.total_doc_len, 1);
    assert_eq!(second.document_frequency("alpha"), 0);
    assert_eq!(second.document_frequency("gamma"), 1);
    assert!(second.get(2).is_none());
    assert_eq!(second.live_spots(), [(1, 0)]);
}

#[test]
fn compaction_keeps_contents_and_rankings() {
    let mut db = Store::new();
    db.put(3, "common one");
    db.put(1, "common two two");
    db.put(2, "common");
    db.put(3, "common three three three");
    let query = Query::or(vec![Query::term("common"), Query::term("three")]);
    let before = db.ranking(&query, uncached(10), false);
    let compacted = db.snapshot.compacted();
    assert_eq!(compacted.segments.len(), 1);
    let order: Vec<_> = compacted.segments[0].docs.iter().map(|doc| doc.rowid).collect();
    assert_eq!(order, [1, 2, 3]);
    db.snapshot = compacted;
    assert_eq!(db.ranking(&query, uncached(10), false), before);
}

#[test]
fn scores_follow_the_formula() {
    let mut db = Store::new();
    db.put(1, "apple apple pear");
    db.put(2, "pear");
    let hits = db
        .run(&Query::term("apple"), uncached(5), false)
        .unwrap()
        .hits;
    assert_eq!(hits.len(), 1);
    let idf = ((2.0_f32 - 1.0 + 0.5) / (1.0 + 0.5) + 1.0).ln();
    let budget = 1.2_f32 * (1.0 - 0.75 + 0.75 * 3.0 / 2.0);
    let expected = idf * (2.0 * (1.2_f32 + 1.0)) / (2.0 + budget);
    assert_eq!(f32::from_bits(hits[0].score), expected);
}

#[test]
fn negation_alone_looks_at_every_document() {
    let mut db = Store::new();
    db.put(1, "a");
    db.put(2, "b");
    db.put(3, "c");
    assert_eq!(db.ids(&Query::negate(Query::term("b"))), [1, 3]);
    assert_eq!(db.ids(&Query::All), [1, 2, 3]);
    assert!(db.ids(&Query::or(Vec::new())).is_empty());
    assert_eq!(db.ids(&Query::and(Vec::new())), [1, 2, 3]);
    let result = db.run(&Query::All, uncached(2), true).unwrap();
    assert_eq!(result.stats.candidate_docs, 3);
    assert_eq!(result.stats.scored_docs, 3);
    assert_eq!(
        result.hits.iter().map(|hit| hit.rowid).collect::<Vec<_>>(),
        [1, 2]
    );
}

#[test]
fn alternatives_without_a_term_are_found_too() {
    let mut db = Store::new();
    db.put(1, "a");
    db.put(2, "c");
    db.put(3, "b");
    let query = Query::or(vec![Query::term("a"), Query::negate(Query::term("b"))]);
    for exhaustive in [true, false] {
        let result = db.run(&query, uncached(5), exhaustive).unwrap();
        assert_eq!(
            result.hits.iter().map(|hit| hit.rowid).collect::<Vec<_>>(),
            [1, 2]
        );
        assert_eq!(result.stats.candidate_docs, 3);
        assert_eq!(result.stats.scored_docs, 2);
    }
    assert!(is_anchored(&Query::and(vec![Query::All, Query::term("a")])));
    assert!(!is_anchored(&query));
}

#[test]
fn what_cannot_be_restored_is_not_written() {
    let bare = Snapshot::default().with_commit(1, vec![(1, Vec::new())], Vec::new());
    assert!(matches!(encode_snapshot(&bare), Err(Error::InvalidInput(_))));
    let wide = Snapshot::default().with_commit(1, vec![(1, vec!["x".to_owned(); 65])], Vec::new());
    assert!(matches!(encode_snapshot(&wide), Err(Error::InvalidInput(_))));
    let mut repeated = Snapshot::default().with_commit(1, vec![(1, fields(&["a a"]))], Vec::new());
    let segment = Arc::get_mut(&mut repeated.segments[0]).unwrap();
    segment.terms.entries[0].1.positions[0] = vec![7, 7];
    assert!(matches!(encode_snapshot(&repeated), Err(Error::InvalidInput(_))));
}

#[test]
fn commits_that_the_log_cannot_hold_are_refused() {
    let blank = " ".repeat(64 << 20);
    let operations = (0..5)
        .map(|rowid| Operation::Upsert {
            rowid,
            fields: vec![blank.clone()],
        })
        .collect();
    let mut prepared = begin_commit(operations).unwrap().unwrap();
    assert!(matches!(prepared.seal(1), Err(Error::InvalidInput(_))));
}

#[test]
fn a_restored_snapshot_is_the_saved_one() {
    let mut db = Store::new();
    db.put(1, "old value");
    db.put(1, "new value");
    db.put(2, "keep me");
    db.put(3, "gone");
    let mut gone = Transaction::begin();
    gone.delete(3).unwrap();
    db.commit(gone).unwrap();
    let saved = db.snapshot.compacted();
    let restored = decode_snapshot(&encode_snapshot(&saved).unwrap()).unwrap();
    assert_eq!(restored.live_masks, saved.live_masks);
    assert_eq!(*saved.live_masks[0], [3]);
    assert_eq!(restored.latest.len(), 2);
    assert!(saved.latest.values().all(|location| !location.deleted));
    assert_eq!(restored.segments[0].docs[0].unique_terms, ["new", "value"]);
    assert_eq!(restored.segments[0].docs[0].fields, ["new value"]);
    assert_eq!(restored.total_doc_len, 4);
    assert_eq!(format!("{:?}", restored.segments), format!("{:?}", saved.segments));
    assert_eq!(format!("{:?}", restored.term_df), format!("{:?}", saved.term_df));
}

#[test]
fn masks_end_with_the_documents() {
    let first = Snapshot::default().with_commit(1, vec![(1, fields(&["old value"]))], Vec::new());
    let second = first.with_commit(
        2,
        vec![(1, fields(&["new value"])), (2, fields(&["keep me"]))],
        Vec::new(),
    );
    assert_eq!(*second.live_masks[0], [0]);
    assert_eq!(*second.live_masks[1], [3]);
    assert_eq!(second.total_doc_len, 4);
    assert_eq!(second.latest[&1].segment, 1);
}

#[test]
fn a_search_counts_what_it_looks_at() {
    let mut db = Store::new();
    for rowid in 0..300 {
        let text = match rowid % 3 {
            0 => "red green",
            1 => "green red blue",
            _ => "red",
        };
        db.put(rowid, text);
    }
    db.optimize().unwrap();
    let mut gone = Transaction::begin();
    gone.delete(0).unwrap();
    gone.delete(2).unwrap();
    db.commit(gone).unwrap();

    // Lists walked together: every document with all terms is looked at.
    for (query, limit, candidates, scored) in [
        (
            Query::and(vec![Query::term("red"), Query::term("green")]),
            5,
            200,
            199,
        ),
        (Query::phrase(&["red", "green"]), 5, 200, 99),
        (Query::phrase(&["green", "red"]), 1000, 200, 100),
    ] {
        let stats = db.run(&query, uncached(limit), false).unwrap().stats;
        assert_eq!(stats.candidate_docs, candidates);
        assert_eq!(stats.scored_docs, scored);
        assert_eq!(stats.posting_blocks, 0);
    }

    // With room left, nothing is skipped.
    let one = db.run(&Query::term("red"), uncached(1000), false).unwrap();
    assert_eq!(one.stats.candidate_docs, 300);
    assert_eq!(one.stats.scored_docs, 298);
    assert_eq!(one.hits.len(), 298);
    assert_eq!(one.stats.posting_blocks, 3);
    assert_eq!(one.stats.skipped_blocks, 0);
    let either = Query::or(vec![Query::term("green"), Query::term("blue")]);
    let many = db.run(&either, uncached(1000), false).unwrap();
    assert_eq!(many.stats.candidate_docs, 200);
    assert_eq!(many.stats.scored_docs, 199);
    assert_eq!(many.stats.posting_blocks, 0);
    assert_eq!(many.stats.skipped_blocks, 0);

    // A full result still looks at each block of a single list.
    let best = db.run(&Query::term("red"), uncached(1), false).unwrap();
    assert_eq!(best.stats.posting_blocks, 3);
    assert!(best.stats.candidate_docs <= 300);
}

#[test]
fn joined_lists_jump_over_blocks() {
    let docs = (0..400)
        .map(|rowid| {
            let text = match rowid {
                299 | 390 => "common rare",
                _ => "common",
            };
            (rowid, fields(&[text]))
        })
        .collect();
    let snapshot = Snapshot::default().with_commit(1, docs, Vec::new());
    let query = Query::and(vec![Query::term("common"), Query::term("rare")]);
    let options = uncached(1);
    let scorer = Bm25::new(&snapshot, &query, &options);
    let stats = snapshot.search(&query, options, false, &scorer).stats;
    // From place 0 to 299 two blocks, from 300 to 390 one.
    assert_eq!(stats.skipped_blocks, 3);
    assert_eq!(stats.candidate_docs, 2);
    assert_eq!(stats.posting_blocks, 0);
}

#[test]
fn a_legacy_checkpoint_is_indexed_like_a_log() {
    let operations = vec![
        Operation::Upsert {
            rowid: 4,
            fields: fields(&["legacy pear", "apple"]),
        },
        Operation::Upsert {
            rowid: 5,
            fields: fields(&["legacy plum plum"]),
        },
    ];
    let payload = encode_commit(1, &operations).unwrap();
    let file = encode_frame(&LEGACY_SEGMENT_MAGIC, &payload).unwrap();
    let opened = Store::open(vec![file], Vec::new()).unwrap();
    let mut written = Store::new();
    let mut tx = Transaction::begin();
    tx.upsert(4, fields(&["legacy pear", "apple"])).unwrap();
    tx.upsert(5, fields(&["legacy plum plum"])).unwrap();
    assert_eq!(written.commit(tx).unwrap(), 1);
    assert_eq!(opened.snapshot.live_docs, 2);
    assert_eq!(opened.snapshot.total_doc_len, written.snapshot.total_doc_len);
    assert_eq!(opened.snapshot.document_frequency("legacy"), 2);
    assert_eq!(opened.snapshot.document_frequency("plum"), 1);
    assert_eq!(opened.snapshot.document_frequency("quince"), 0);
    for query in [
        Query::term("legacy"),
        Query::prefix("p"),
        Query::column(1, Query::term("apple")),
    ] {
        let found = opened.ranking(&query, uncached(10), false);
        assert!(!found.is_empty());
        assert_eq!(found, written.ranking(&query, uncached(10), false));
    }
}

#[test]
fn live_documents_grow_by_new_rowids() {
    let mut db = Store::new();
    db.put(1, "one");
    db.put(2, "two");
    assert_eq!(db.snapshot.live_docs, 2);
    db.put(1, "one again");
    assert_eq!(db.snapshot.live_docs, 2);
    let mut tx = Transaction::begin();
    tx.upsert_text(3, "three".to_owned()).unwrap();
    tx.delete(2).unwrap();
    tx.upsert_text(4, "four".to_owned()).unwrap();
    db.commit(tx).unwrap();
    assert_eq!(db.snapshot.live_docs, 3);
    let db = db.reopen().unwrap();
    assert_eq!(db.snapshot.live_docs, 3);
    assert_eq!(db.snapshot.generation, 4);
}

/// Counts how often the terms stand in a document. Bounds are the counts of the
/// block, or nothing at all.
struct Counts {
    bounded: bool,
}

impl Scorer for Counts {
    fn start(&self) -> u32 {
        0
    }

    fn add_term(&self, score: u32, _ordinal: usize, freq: u32, _doc_len: u32) -> u32 {
        score + freq
    }

    fn bound(
        &self,
        _ordinal: usize,
        _list_tf: u32,
        _list_len: u32,
        max_tf: u32,
        _min_doc_len: u32,
    ) -> u32 {
        if self.bounded {
            max_tf
        } else {
            0
        }
    }

    fn join(&self, total: u64, bound: u32) -> u64 {
        total + u64::from(bound)
    }

    fn reaches(&self, total: u64, score: u32) -> bool {
        total >= u64::from(score)
    }

    fn below(&self, total: u64, score: u32) -> bool {
        total < u64::from(score)
    }
}

#[test]
fn exact_bounds_lose_nothing_and_need_not_hold_while_there_is_room() {
    let mut db = Store::new();
    let mut state = 7_u64;
    for commit in 0..4_i64 {
        let mut tx = Transaction::begin();
        for row in 0..90_i64 {
            tx.upsert_text(commit * 60 + row, random_document(&mut state))
                .unwrap();
        }
        db.commit(tx).unwrap();
    }
    let found = |query: &Query, limit: usize, exhaustive: bool, bounded: bool| {
        db.snapshot
            .search(query, uncached(limit), exhaustive, &Counts { bounded })
            .hits
            .iter()
            .map(|hit| (hit.rowid, hit.score))
            .collect::<Vec<_>>()
    };
    for query in [
        Query::term("t03"),
        Query::or(vec![Query::term("t01"), Query::term("t02"), Query::term("t05")]),
        Query::prefix("t1"),
    ] {
        for limit in [1, 3, 10, 40] {
            assert_eq!(
                found(&query, limit, false, true),
                found(&query, limit, true, true)
            );
        }
        let all = found(&query, 1000, true, true);
        assert!(!all.is_empty() && all.len() < 1000);
        assert_eq!(found(&query, 1000, false, false), all);
    }
}
