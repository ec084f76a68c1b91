//! Kestrel is a dependency-free, embedded full-text database.
//!
//! Documents are texts in up to 64 fields, known by a rowid. A transaction writes
//! and deletes documents; its commit is one checksummed record of an append-only
//! log and leads to a new immutable [`Snapshot`]. A snapshot answers typed queries
//! and can be written as a checkpoint, which takes the place of the log.
//!
//! The modules build on each other:
//!
//! - `error`, `codec`, `packing` and `parsing` hold errors and byte formats;
//! - `text`, `tokenizer` and `sorting` turn texts into terms and keep terms in order;
//! - `segment`, `tally`, `snapshot` and `statistics` hold the inverted index, which
//!   of its documents live, and what is counted of them;
//! - `query`, `matching` and `scoring` say which documents a query asks for;
//! - `scorer`, `ranking`, `answer`, `effort`, `cursor`, `scan`, `single_list`,
//!   `leapfrog`, `intersection`, `wand`, `search`, `agreement` and `exactness` find the
//!   best of them;
//! - `operation`, `commit`, `wal` and `writer` carry writes into the log and into
//!   the next snapshot;
//! - `record`, `reading`, `round_trip`, `encoding`, `decoding`, `checkpoint`,
//!   `restoring`, `identity` and `damage` write and read checkpoints;
//! - `recovery` says what survives when the process does not;
//! - `cache` keeps recent results, and `arguments` reads a command line.
//!
//! Others hold laws, which say in terms of what goes in and what comes out what the
//! library is for:
//!
//! - `words`, `places`, `counting` and `layout` say of texts which terms they have, where
//!   these stand, how they are counted, and how that is laid out;
//! - `meaning`, `asking`, `finding` and `costs` say of queries which documents they ask
//!   for, which of them a search shows, in which order, and what it counts on its way;
//! - `writing`, `changing`, `logging` and `saving` say of writes what they leave in the
//!   database, in the log and in a checkpoint;
//! - `remembering` and `requests` say when a remembered result answers a search, and what
//!   can be asked of the program.
//!
//! Files, locks and floating-point arithmetic are left to the program around the
//! library. It hands in bytes, and a [`Scorer`] for the arithmetic of scores.
pub mod agreement;
pub mod answer;
pub mod arguments;
pub mod asking;
pub mod cache;
pub mod changing;
pub mod checkpoint;
pub mod codec;
pub mod commit;
pub mod costs;
pub mod counting;
pub mod cursor;
pub mod damage;
pub mod decoding;
pub mod effort;
pub mod encoding;
pub mod error;
pub mod exactness;
pub mod finding;
pub mod identity;
pub mod intersection;
pub mod layout;
pub mod leapfrog;
pub mod logging;
pub mod matching;
pub mod meaning;
pub mod operation;
pub mod packing;
pub mod parsing;
pub mod places;
pub mod query;
pub mod ranking;
pub mod reading;
pub mod record;
pub mod recovery;
pub mod remembering;
pub mod requests;
pub mod restoring;
pub mod round_trip;
pub mod saving;
pub mod scan;
pub mod scorer;
pub mod scoring;
pub mod search;
pub mod segment;
pub mod single_list;
pub mod snapshot;
pub mod sorting;
pub mod statistics;
pub mod tally;
pub mod text;
pub mod tokenizer;
pub mod wal;
pub mod wand;
pub mod words;
pub mod writer;
pub mod writing;

pub use crate::cache::DatabaseConfig;
pub use crate::error::{Error, Result};
pub use crate::operation::Transaction;
pub use crate::query::{Query, SearchHit, SearchOptions, SearchResult, SearchStats};
pub use crate::scorer::Scorer;
pub use crate::snapshot::Snapshot;
