use std::sync::Arc;

use kestrel::arguments::{parse_command, parse_limit, parse_rowid, Command};
use kestrel::cache::{
    shard_capacity, shard_count, shard_index, CacheKey, DatabaseConfig, QueryCache,
};
use kestrel::error::Error;
use kestrel::matching::{
    is_flat_conjunction, is_flat_disjunction, matches_query, phrase_runs,
};
use kestrel::query::{Query, SearchHit, SearchOptions, SearchResult, SearchStats};
use kestrel::ranking::{RankedDoc, TopK};
use kestrel::segment::Segment;
use kestrel::snapshot::{full_live_mask, Snapshot};
use kestrel::sorting::sort_entries;

fn segment(texts: &[&[&str]]) -> Segment {
    Segment::build(
        texts
            .iter()
            .enumerate()
            .map(|(rowid, fields)| {
                (
                    rowid as i64,
                    fields.iter().map(|field| (*field).to_owned()).collect(),
                )
            })
            .collect(),
    )
}

fn refused<T>(result: Result<T, Error>) -> String {
    match result {
        Err(Error::InvalidInput(message)) => message,
        Err(other) => panic!("another error: {other:?}"),
        Ok(_) => panic!("no error"),
    }
}

#[test]
fn block_layout_is_complete() {
    let docs = (0..300)
        .map(|id| (id, vec!["same term".to_owned()]))
        .collect();
    let segment = Segment::build(docs);
    let list = segment.terms.get("same").unwrap();
    assert_eq!(list.blocks.len(), 3);
    assert_eq!(list.blocks[0].end, 128);
    assert_eq!(list.blocks[2].end, 300);
}

#[test]
fn blocks_bound_their_postings() {
    let built = segment(&[&["x x x y"], &["x"], &["z"]]);
    let list = built.terms.get("x").unwrap();
    assert_eq!(list.docids, [0, 1]);
    assert_eq!(list.freqs, [3, 1]);
    assert_eq!(list.positions, [vec![0, 1, 2], vec![0]]);
    assert_eq!(list.max_tf, 3);
    assert_eq!(list.min_doc_len, 1);
    assert_eq!(list.blocks[0].last_docid, 1);
    assert_eq!(list.find(1), Some(1));
    assert_eq!(list.find(2), None);
    assert_eq!(built.docs[0].len, 4);
    assert_eq!(built.docs[0].unique_terms, ["x", "y"]);
}

#[test]
fn queries_match_by_position() {
    let built = segment(&[
        &["red green blue", "red"],
        &["green red", "blue"],
        &["green x red", "y z"],
    ]);
    let found = |query: &Query| -> Vec<u32> {
        (0..3)
            .filter(|docid| matches_query(&built, *docid, query))
            .collect()
    };
    assert_eq!(found(&Query::phrase(&["red", "green"])), [0]);
    assert_eq!(found(&Query::phrase(&["green", "blue"])), [0]);
    assert!(found(&Query::phrase(&["blue", "red"])).is_empty());
    assert_eq!(found(&Query::near(&["red", "green"], 1)), [0, 1]);
    assert_eq!(found(&Query::near(&["red", "green"], 2)), [0, 1, 2]);
    assert_eq!(found(&Query::column(1, Query::term("red"))), [0]);
    assert_eq!(
        found(&Query::column(1, Query::negate(Query::term("red")))),
        [1, 2]
    );
    assert_eq!(found(&Query::prefix("gr")), [0, 1, 2]);
    assert_eq!(found(&Query::All), [0, 1, 2]);
    assert!(found(&Query::or(Vec::new())).is_empty());
}

#[test]
fn search_terms_ignore_case() {
    let built = segment(&[&["Kestrel"]]);
    assert!(matches_query(&built, 0, &Query::term("KESTREL")));
    assert!(matches_query(&built, 0, &Query::prefix("KES")));
    assert!(matches_query(&built, 0, &Query::phrase(&["kEstrel"])));
    assert!(matches!(
        Query::column(200, Query::All),
        Query::Column { column: 63, .. }
    ));
}

#[test]
fn copies_of_queries_are_the_same() {
    let query = Query::and(vec![
        Query::phrase(&["a", "b"]),
        Query::negate(Query::near(&["c", "d"], 4)),
        Query::column(2, Query::or(vec![Query::prefix("e"), Query::All])),
    ]);
    let copy = query.copy();
    assert_eq!(query, copy);
    assert!(query.is_same(&copy));
    assert!(!query.is_same(&Query::All));
    assert!(!Query::near(&["c"], 4).is_same(&Query::near(&["c"], 5)));
}

#[test]
fn search_options_are_checked() {
    let options = SearchOptions::default();
    assert_eq!(options.limit, 10);
    assert_eq!(f32::from_bits(options.k1), 1.2);
    assert_eq!(f32::from_bits(options.b), 0.75);
    assert!(options.cache);
    assert_eq!(options.validate().unwrap(), options);
    assert_eq!(
        refused(SearchOptions { limit: 0, ..options }.validate()),
        "search limit must be greater than zero"
    );
    let with = |k1: f32, b: f32| {
        SearchOptions {
            k1: k1.to_bits(),
            b: b.to_bits(),
            ..options
        }
        .validate()
    };
    assert!(with(0.0, 1.0).is_ok());
    assert!(with(-0.0, -0.0).is_ok());
    assert!(with(f32::MAX, 0.0).is_ok());
    for (k1, b) in [
        (-1.0, 0.5),
        (f32::INFINITY, 0.5),
        (f32::NAN, 0.5),
        (1.0, -0.5),
        (1.0, 1.1),
        (1.0, f32::NAN),
    ] {
        assert_eq!(
            refused(with(k1, b)),
            "BM25 requires finite k1 >= 0 and b in 0..=1"
        );
    }
}

fn result(rowid: i64) -> SearchResult {
    SearchResult {
        hits: vec![SearchHit {
            rowid,
            score: 1,
            fields: vec!["x".to_owned()],
        }],
        stats: SearchStats::default(),
        generation: 1,
        is_approximate: false,
    }
}

fn key(generation: u64, term: &str) -> CacheKey {
    CacheKey::new(generation, &Query::term(term), &SearchOptions::default())
}

#[test]
fn the_least_recently_used_result_makes_room() {
    let mut cache = QueryCache::new(2);
    cache.insert(key(1, "a"), Arc::new(result(1)));
    cache.insert(key(1, "b"), Arc::new(result(2)));
    assert_eq!(cache.get(&key(1, "a")), Some(result(1)));
    cache.insert(key(1, "c"), Arc::new(result(3)));
    assert_eq!(cache.get(&key(1, "b")), None);
    assert_eq!(cache.get(&key(1, "a")), Some(result(1)));
    assert_eq!(cache.get(&key(1, "c")), Some(result(3)));
    cache.insert(key(1, "a"), Arc::new(result(4)));
    assert_eq!(cache.entries.len(), 2);
    assert_eq!(cache.get(&key(1, "a")), Some(result(4)));
    cache.clear();
    assert_eq!(cache.get(&key(1, "a")), None);
}

#[test]
fn cached_results_belong_to_one_generation_and_limit() {
    let mut cache = QueryCache::new(4);
    cache.insert(key(1, "a"), Arc::new(result(1)));
    assert_eq!(cache.get(&key(2, "a")), None);
    let fewer = SearchOptions {
        limit: 3,
        ..SearchOptions::default()
    };
    assert_eq!(cache.get(&CacheKey::new(1, &Query::term("a"), &fewer)), None);
    let found = cache.get(&key(1, "A")).unwrap().from_cache();
    assert!(found.stats.cache_hit);
    assert_eq!(found.hits, result(1).hits);
}

#[test]
fn a_cache_without_room_stays_empty() {
    let mut cache = QueryCache::new(0);
    cache.insert(key(1, "a"), Arc::new(result(1)));
    assert_eq!(cache.get(&key(1, "a")), None);
}

#[test]
fn shards_divide_the_capacity() {
    assert_eq!(DatabaseConfig::default().query_cache_capacity, 256);
    let shards = |total: usize| -> Vec<usize> {
        let count = shard_count(total);
        (0..count)
            .map(|index| shard_capacity(total, count, index))
            .collect()
    };
    assert_eq!(shards(256), [16; 16]);
    assert_eq!(shards(0), [0]);
    assert_eq!(shards(5), [1; 5]);
    assert_eq!(shards(17), [2, 1, 1, 1, 1, 1, 1, 1, 1, 1, 1, 1, 1, 1, 1, 1]);
    for total in 0..100 {
        assert_eq!(shards(total).iter().sum::<usize>(), total);
    }
    assert_eq!(shard_index(35, 16), 3);
}

#[test]
fn numbers_are_read_as_typed() {
    assert_eq!(parse_rowid("42").unwrap(), 42);
    assert_eq!(parse_rowid("+7").unwrap(), 7);
    assert_eq!(parse_rowid("-0").unwrap(), 0);
    assert_eq!(parse_rowid("007").unwrap(), 7);
    assert_eq!(parse_rowid("9223372036854775807").unwrap(), i64::MAX);
    assert_eq!(parse_rowid("-9223372036854775808").unwrap(), i64::MIN);
    for text in ["", "-", "+", "1x", " 1", "9223372036854775808", "-9223372036854775809", "+-1", "١"]
    {
        assert_eq!(refused(parse_rowid(text)), "rowid must be an i64");
        assert!(text.parse::<i64>().is_err());
    }
    assert_eq!(parse_limit("10").unwrap(), 10);
    assert_eq!(parse_limit("+10").unwrap(), 10);
    assert_eq!(parse_limit(&usize::MAX.to_string()).unwrap(), usize::MAX);
    for text in ["", "-1", "-0", "ten", "99999999999999999999999"] {
        assert_eq!(refused(parse_limit(text)), "limit must be an integer");
        assert!(text.parse::<usize>().is_err());
    }
}

#[test]
fn the_best_documents_are_kept() {
    let doc = |score: f32, rowid: i64| RankedDoc {
        segment: 0,
        docid: rowid as u32,
        rowid,
        score: score.to_bits(),
    };
    let mut ranked = TopK::new(2);
    assert!(!ranked.is_full());
    assert_eq!(ranked.threshold(), 0);
    for (score, rowid) in [(1.0, 5), (3.0, 9), (1.0, 2), (0.5, 1), (-1.0, 3)] {
        ranked.push(doc(score, rowid));
    }
    assert!(ranked.is_full());
    assert_eq!(f32::from_bits(ranked.threshold()), 1.0);
    let order: Vec<_> = ranked.into_sorted().iter().map(|doc| doc.rowid).collect();
    assert_eq!(order, [9, 2]);
}

#[test]
fn masks_have_a_bit_for_each_document() {
    assert!(full_live_mask(0).is_empty());
    assert_eq!(full_live_mask(64), [u64::MAX]);
    assert_eq!(full_live_mask(65), [u64::MAX, 1]);
    let snapshot = Snapshot::default()
        .with_commit(1, vec![(1, vec!["a".to_owned()]), (2, vec!["b".to_owned()])], Vec::new());
    let next = snapshot.with_commit(2, Vec::new(), vec![1]);
    assert!(snapshot.is_live(0, 0));
    assert!(!next.is_live(0, 0));
    assert!(next.is_live(0, 1));
}

#[test]
fn entries_are_sorted_by_key_and_place() {
    assert_eq!(
        sort_entries(vec![(3, 0), (-1, 1), (3, 2), (0, 3)]),
        [(-1, 1), (0, 3), (3, 0), (3, 2)]
    );
}

#[test]
fn phrases_run_through_consecutive_positions() {
    let first = vec![0, 2];
    let second = vec![1, 3];
    let third = vec![4];
    assert!(phrase_runs(&first, &vec![&second, &third], None));
    assert!(phrase_runs(&first, &vec![&second], Some(0)));
    assert!(!phrase_runs(&first, &vec![&second], Some(1)));
    assert!(!phrase_runs(&second, &vec![&second], None));
    assert!(phrase_runs(&third, &Vec::new(), None));
}

#[test]
fn flat_queries_are_recognised() {
    let either = Query::or(vec![Query::term("a"), Query::prefix("b")]);
    assert!(is_flat_disjunction(&either));
    assert!(!is_flat_conjunction(&either));
    assert!(is_flat_conjunction(&Query::and(vec![
        Query::term("a"),
        Query::term("b")
    ])));
    assert!(!is_flat_disjunction(&Query::or(Vec::new())));
    assert!(!is_flat_disjunction(&Query::phrase(&["a"])));
}

#[test]
fn commands_are_read_as_typed() {
    let command = |line: &str| {
        let args: Vec<String> = line.split(' ').map(str::to_owned).collect();
        parse_command(&args)
    };
    let text = |text: &str| text.to_owned();
    assert_eq!(command("kestrel").unwrap(), Command::Usage);
    assert_eq!(command("kestrel put").unwrap(), Command::Usage);
    assert_eq!(
        command("kestrel put dir 1 some more text").unwrap(),
        Command::Put {
            path: text("dir"),
            rowid: text("1"),
            text: text("some more text")
        }
    );
    assert_eq!(
        command("kestrel get dir x").unwrap(),
        Command::Get {
            path: text("dir"),
            rowid: text("x")
        }
    );
    assert_eq!(
        command("kestrel search dir term").unwrap(),
        Command::Search {
            path: text("dir"),
            term: text("term"),
            limit: None
        }
    );
    assert_eq!(
        command("kestrel search dir term 3 ignored").unwrap(),
        Command::Search {
            path: text("dir"),
            term: text("term"),
            limit: Some(text("3"))
        }
    );
    assert_eq!(
        command("kestrel optimize dir").unwrap(),
        Command::Optimize { path: text("dir") }
    );
    for line in [
        "kestrel put dir 1",
        "kestrel get dir 1 2",
        "kestrel search dir",
        "kestrel optimize dir now",
        "kestrel drop dir",
    ] {
        assert_eq!(refused(command(line)), "invalid command or arguments");
    }
}
