# Kestrel

An embedded full-text database without dependencies, written in Verus: the
library under `src/` states what it does in `requires` and `ensures` clauses, and
Verus proves them.

## What is proved

- **Bytes.** Integers, byte strings, packed blocks, commits, log records and
  checkpoints are read back as they were written; every malformed input is refused
  with the error that its contract names. What is read as a checkpoint is well
  formed, and no part or extension of a readable payload can be read.
- **Index.** A segment says of every document and term what the tokenizer says of
  the document's fields. The counters of a snapshot (documents, lengths, document
  frequencies) are what its live documents add up to.
- **Queries.** `matches_query` decides exactly the matches of a query. A search
  returns the best of them in order. A search that finds fewer documents than it was
  asked for finds them all, with their scores, whatever the scorer's bounds are. A
  pruned search that finds as many as it was asked for agrees with the exhaustive
  one where the scorer is `admissible`: where a total of the bounds that it gave for
  lists and blocks of a segment does not reach the score of an earlier document, no
  document that these bounds cover reaches it. Scorers that compute exactly are.
  Until the result is full, what a search counts of documents is exact.
- **Durability.** A record that the log could not give back is not written, and
  neither is a checkpoint that could not be read. A commit whose record was written
  is there after reopening, and what had room for it has room for it again; a record
  cut off anywhere leaves no trace; a checkpoint brings back the compacted snapshot
  in every part, with or without the log it covers; and one that was cut, extended or
  changed in one bit is refused.

## Layout

- `src/` is the library. `src/lib.rs` lists its modules.
- `tests/` runs the library, with BM25 as the scorer and byte strings as files.
- `app/` is the program around the library: files, locks, the sharded cache, BM25
  in floating point, and the command line.

## What is taken on trust

The contracts of `str::to_lowercase`, `char::is_alphanumeric`, `String::push`,
`String::from_utf8`, `Arc::clone` and `Arc::make_mut`, next to their declarations
in `src/text.rs` and `src/snapshot.rs`.
