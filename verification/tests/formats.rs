use kestrel::checkpoint::{
    is_checkpoint_name, read_checkpoint, LEGACY_SEGMENT_MAGIC, SEGMENT_MAGIC,
};
use kestrel::codec::{checksum, put_bytes, put_i64, put_u32, put_u64};
use kestrel::commit::{decode_commit, encode_commit};
use kestrel::decoding::{decode_snapshot, read_count};
use kestrel::encoding::{encode_snapshot, put_len};
use kestrel::error::Error;
use kestrel::operation::{
    canonicalize_operations, split_operations, validate_operations, Operation, Transaction,
};
use kestrel::snapshot::Snapshot;
use kestrel::wal::{encode_frame, read_wal, replay, MAX_WAL_RECORD_BYTES, WAL_MAGIC};
use kestrel::writer::{begin_commit, next_generation, prepare_commit};

fn upsert(rowid: i64, text: &str) -> Operation {
    Operation::Upsert {
        rowid,
        fields: vec![text.to_owned()],
    }
}

fn corrupt<T>(result: Result<T, Error>) -> &'static str {
    match result {
        Err(Error::Corrupt(message)) => message,
        Err(other) => panic!("another error: {other:?}"),
        Ok(_) => panic!("no error"),
    }
}

fn refused<T>(result: Result<T, Error>) -> String {
    match result {
        Err(Error::InvalidInput(message)) => message,
        Err(other) => panic!("another error: {other:?}"),
        Ok(_) => panic!("no error"),
    }
}

#[test]
fn commits_have_a_fixed_layout() {
    let payload = encode_commit(3, &vec![upsert(-1, "é"), Operation::Delete { rowid: 2 }]).unwrap();
    let mut expected = Vec::new();
    put_u64(&mut expected, 3);
    put_u32(&mut expected, 2);
    expected.push(1);
    put_i64(&mut expected, -1);
    put_u32(&mut expected, 1);
    put_bytes(&mut expected, "é".as_bytes()).unwrap();
    expected.push(2);
    put_i64(&mut expected, 2);
    assert_eq!(payload, expected);
    let (generation, operations) = decode_commit(&payload).unwrap();
    assert_eq!(generation, 3);
    assert_eq!(operations, [upsert(-1, "é"), Operation::Delete { rowid: 2 }]);
}

#[test]
fn broken_commits_are_told_apart() {
    let mut head = Vec::new();
    put_u64(&mut head, 1);
    put_u32(&mut head, 1);
    assert_eq!(corrupt(decode_commit(&head[..5])), "truncated record");
    assert_eq!(corrupt(decode_commit(&head)), "missing operation tag");

    let mut unknown = head.clone();
    unknown.push(3);
    put_i64(&mut unknown, 1);
    assert_eq!(corrupt(decode_commit(&unknown)), "unknown operation tag");

    for count in [0, 65] {
        let mut fields = head.clone();
        fields.push(1);
        put_i64(&mut fields, 1);
        put_u32(&mut fields, count);
        assert_eq!(corrupt(decode_commit(&fields)), "invalid field count");
    }

    let mut text = head.clone();
    text.push(1);
    put_i64(&mut text, 1);
    put_u32(&mut text, 1);
    put_bytes(&mut text, &[0xff]).unwrap();
    assert_eq!(corrupt(decode_commit(&text)), "field is not UTF-8");

    let mut longer = encode_commit(1, &vec![upsert(1, "x")]).unwrap();
    longer.push(0);
    assert_eq!(corrupt(decode_commit(&longer)), "trailing commit bytes");
}

#[test]
fn logs_are_read_record_by_record() {
    let first = encode_commit(1, &vec![upsert(1, "a")]).unwrap();
    let second = encode_commit(2, &vec![upsert(2, "b")]).unwrap();
    let mut log = encode_frame(&WAL_MAGIC, &first).unwrap();
    assert_eq!(&log[..8], b"KSTWAL01");
    assert_eq!(log[8..12], (first.len() as u32).to_le_bytes());
    assert_eq!(log[12..16], checksum(&first).to_le_bytes());
    assert_eq!(log[16..], first);
    log.extend(encode_frame(&WAL_MAGIC, &second).unwrap());
    let (commits, valid) = read_wal(&log).unwrap();
    assert_eq!(valid, log.len());
    assert_eq!(
        commits,
        [(1, vec![upsert(1, "a")]), (2, vec![upsert(2, "b")])]
    );
    assert_eq!(read_wal(&[]).unwrap(), (Vec::new(), 0));
}

#[test]
fn broken_logs_are_told_apart() {
    let payload = encode_commit(1, &vec![upsert(1, "a")]).unwrap();
    let frame = encode_frame(&WAL_MAGIC, &payload).unwrap();

    let mut magic = frame.clone();
    magic[0] = b'X';
    assert_eq!(corrupt(read_wal(&magic)), "invalid WAL magic");

    let mut huge = frame.clone();
    huge[8..12].copy_from_slice(&(MAX_WAL_RECORD_BYTES as u32 + 1).to_le_bytes());
    assert_eq!(corrupt(read_wal(&huge)), "WAL record exceeds safety limit");

    let mut twice = frame.clone();
    twice.extend(frame.clone());
    assert_eq!(corrupt(read_wal(&twice)), "WAL generations are not increasing");
    let zero = encode_frame(&WAL_MAGIC, &encode_commit(0, &vec![upsert(1, "a")]).unwrap()).unwrap();
    assert_eq!(corrupt(read_wal(&zero)), "WAL generations are not increasing");

    let mut damaged = frame.clone();
    damaged[17] ^= 1;
    assert_eq!(read_wal(&damaged).unwrap(), (Vec::new(), 0));
    damaged.extend(frame.clone());
    assert_eq!(corrupt(read_wal(&damaged)), "WAL checksum mismatch");

    let mut torn = frame.clone();
    torn.extend_from_slice(&frame[..frame.len() - 1]);
    let (commits, valid) = read_wal(&torn).unwrap();
    assert_eq!((commits.len(), valid), (1, frame.len()));
}

#[test]
fn replay_skips_what_a_checkpoint_covers() {
    let base = Snapshot::default().with_commit(2, vec![(1, vec!["kept".to_owned()])], Vec::new());
    let commits = vec![
        (1, vec![upsert(1, "older")]),
        (2, vec![upsert(1, "covered")]),
        (3, vec![upsert(2, "newer")]),
    ];
    let next = replay(base, commits).unwrap();
    assert_eq!(next.generation, 3);
    assert_eq!(next.get(1).unwrap(), ["kept"]);
    assert_eq!(next.get(2).unwrap(), ["newer"]);
}

#[test]
fn documents_need_between_one_and_64_fields() {
    let none = vec![Operation::Upsert {
        rowid: 1,
        fields: Vec::new(),
    }];
    assert_eq!(
        refused(validate_operations(&none)),
        "a document requires at least one field"
    );
    let many = vec![
        upsert(1, "fine"),
        Operation::Upsert {
            rowid: 2,
            fields: vec![String::new(); 65],
        },
    ];
    assert_eq!(
        refused(validate_operations(&many)),
        "a document supports at most 64 fields"
    );
    assert_eq!(
        refused(begin_commit(many).map(|_| ())),
        "a document supports at most 64 fields"
    );
    let most = vec![Operation::Upsert {
        rowid: 2,
        fields: vec![String::new(); 64],
    }];
    assert!(validate_operations(&most).is_ok());
    assert!(begin_commit(Vec::new()).unwrap().is_none());
}

#[test]
fn writes_are_ordered_by_rowid() {
    let operations = vec![
        upsert(5, "five"),
        Operation::Delete { rowid: -3 },
        upsert(1, "one"),
        upsert(5, "again"),
    ];
    let ordered = canonicalize_operations(operations);
    assert_eq!(
        ordered,
        [
            Operation::Delete { rowid: -3 },
            upsert(1, "one"),
            upsert(5, "again")
        ]
    );
    let (docs, deletes) = split_operations(ordered);
    assert_eq!(
        docs,
        [(1, vec!["one".to_owned()]), (5, vec!["again".to_owned()])]
    );
    assert_eq!(deletes, [-3]);
}

#[test]
fn sealing_settles_the_generation() {
    let mut prepared = prepare_commit(vec![upsert(1, "x")]).unwrap();
    let frame = prepared.seal(9).unwrap();
    assert_eq!(prepared.wal_payload, encode_commit(9, &vec![upsert(1, "x")]).unwrap());
    assert_eq!(frame, encode_frame(&WAL_MAGIC, &prepared.wal_payload).unwrap());
    let next = prepared.publish(&Snapshot::default(), 9);
    assert_eq!(next.generation, 9);
    assert_eq!(next.get(1).unwrap(), ["x"]);
}

#[test]
fn generations_run_out() {
    let mut last = Snapshot::default();
    assert_eq!(next_generation(&last).unwrap(), 1);
    last.generation = u64::MAX;
    assert_eq!(refused(next_generation(&last)), "generation counter exhausted");
}

#[test]
fn closed_transactions_refuse_writes() {
    let mut tx = Transaction { operations: None };
    assert!(matches!(tx.upsert(1, Vec::new()), Err(Error::TransactionClosed)));
    assert!(matches!(
        tx.upsert_text(1, String::new()),
        Err(Error::TransactionClosed)
    ));
    assert!(matches!(tx.delete(1), Err(Error::TransactionClosed)));
    assert!(matches!(tx.commit(), Err(Error::TransactionClosed)));
    assert!(matches!(
        Transaction { operations: None }.rollback(),
        Err(Error::TransactionClosed)
    ));
}

#[test]
fn errors_have_a_text() {
    assert_eq!(
        Error::Corrupt("invalid WAL magic").message(),
        "corrupt Kestrel database: invalid WAL magic"
    );
    assert_eq!(
        Error::InvalidInput("bad".to_owned()).message(),
        "invalid input: bad"
    );
    assert_eq!(
        Error::TransactionClosed.message(),
        "transaction is already closed"
    );
}

/// The bytes of a checkpoint, piece by piece.
struct Pieces {
    bytes: Vec<u8>,
}

impl Pieces {
    fn new(segments: u32) -> Self {
        let mut bytes = Vec::new();
        put_u64(&mut bytes, 4);
        put_u32(&mut bytes, segments);
        Pieces { bytes }
    }

    fn number(mut self, value: u32) -> Self {
        put_u32(&mut self.bytes, value);
        self
    }

    fn numbers(mut self, values: &[u32]) -> Self {
        for value in values {
            put_u32(&mut self.bytes, *value);
        }
        self
    }

    fn text(mut self, value: &[u8]) -> Self {
        put_bytes(&mut self.bytes, value).unwrap();
        self
    }

    fn doc(mut self, rowid: i64, len: u32, field: &str) -> Self {
        put_i64(&mut self.bytes, rowid);
        put_u32(&mut self.bytes, len);
        put_u32(&mut self.bytes, 1);
        put_bytes(&mut self.bytes, field.as_bytes()).unwrap();
        self
    }

    /// One document with the term `a` at the given positions.
    fn posting(self, docid: u32, freq: u32, positions: &[u32]) -> Self {
        self.number(docid)
            .number(freq)
            .number(positions.len() as u32)
            .numbers(positions)
    }
}

/// One segment with one document, up to its terms.
fn one_doc(terms: u32) -> Pieces {
    Pieces::new(1).number(1).doc(7, 2, "a a").number(terms)
}

#[test]
fn checkpoints_have_a_fixed_layout() {
    let pieces = one_doc(1)
        .text(b"a")
        .number(1)
        .posting(0, 2, &[0, 1])
        .number(1)
        .numbers(&[1, 0, 2, 2])
        .numbers(&[2, 2]);
    let snapshot = Snapshot::default().with_commit(4, vec![(7, vec!["a a".to_owned()])], Vec::new());
    assert_eq!(encode_snapshot(&snapshot).unwrap(), pieces.bytes);
    let restored = decode_snapshot(&pieces.bytes).unwrap();
    assert_eq!(restored.generation, 4);
    assert_eq!(restored.live_docs, 1);
    assert_eq!(restored.total_doc_len, 2);
    assert_eq!(restored.document_frequency("a"), 1);
    assert_eq!(restored.get(7).unwrap(), ["a a"]);
    assert_eq!(encode_snapshot(&restored).unwrap(), pieces.bytes);
}

#[test]
fn terms_may_stand_in_any_order() {
    let list = |pieces: Pieces, term: &[u8], position: u32| {
        pieces
            .text(term)
            .number(1)
            .posting(0, 1, &[position])
            .number(1)
            .numbers(&[1, 0, 1, 2])
            .numbers(&[1, 2])
    };
    let pieces = Pieces::new(1).number(1).doc(7, 2, "b a").number(2);
    let pieces = list(list(pieces, b"b", 0), b"a", 1);
    let restored = decode_snapshot(&pieces.bytes).unwrap();
    let order: Vec<_> = restored.segments[0]
        .terms
        .entries
        .iter()
        .map(|entry| entry.0.as_str())
        .collect();
    assert_eq!(order, ["a", "b"]);
    assert_eq!(restored.segments[0].docs[0].unique_terms, ["b", "a"]);
}

#[test]
fn broken_checkpoints_are_told_apart() {
    let message = |pieces: Pieces| corrupt(decode_snapshot(&pieces.bytes));
    assert_eq!(message(Pieces::new(9)), "invalid segment count");
    assert_eq!(message(Pieces::new(1).number(9)), "invalid document count");

    let mut fields = Pieces::new(1).number(1);
    put_i64(&mut fields.bytes, 1);
    put_u32(&mut fields.bytes, 1);
    let mut none = Pieces { bytes: fields.bytes.clone() };
    put_u32(&mut none.bytes, 0);
    assert_eq!(message(none), "invalid field count");
    let mut too_many = Pieces { bytes: fields.bytes.clone() };
    put_u32(&mut too_many.bytes, 9);
    assert_eq!(message(too_many), "invalid field count");
    assert_eq!(message(fields.number(1).text(&[0xff])), "field is not UTF-8");

    assert_eq!(message(one_doc(9)), "invalid term count");
    assert_eq!(message(one_doc(1).text(&[0xff])), "term is not UTF-8");
    assert_eq!(message(one_doc(1).text(b"")), "invalid or duplicate term");
    assert_eq!(
        message(one_doc(1).text(b"a").number(0)),
        "invalid posting count"
    );
    assert_eq!(
        message(one_doc(1).text(b"a").number(9)),
        "invalid posting count"
    );
    assert_eq!(
        message(one_doc(1).text(b"a").number(1).posting(1, 1, &[0])),
        "posting docids are invalid"
    );
    assert_eq!(
        message(one_doc(1).text(b"a").number(1).number(0).number(1).number(9)),
        "invalid position count"
    );
    assert_eq!(
        message(one_doc(1).text(b"a").number(1).posting(0, 1, &[0, 1])),
        "posting frequency does not match positions"
    );
    assert_eq!(
        message(one_doc(1).text(b"a").number(1).posting(0, 2, &[1, 1])),
        "posting positions are not increasing"
    );
    let posted = || one_doc(1).text(b"a").number(1).posting(0, 2, &[0, 1]);
    assert_eq!(message(posted().number(2)), "invalid block count");
    assert_eq!(
        message(posted().number(0).numbers(&[1, 0, 2, 2, 2, 2])),
        "invalid block count"
    );
    for block in [[2, 0, 2, 2], [1, 1, 2, 2], [1, 0, 1, 2], [1, 0, 2, 1]] {
        assert_eq!(
            message(posted().number(1).numbers(&block).numbers(&[2, 2])),
            "invalid block metadata"
        );
    }
    let blocked = || posted().number(1).numbers(&[1, 0, 2, 2]);
    assert_eq!(
        message(blocked().numbers(&[1, 2])),
        "invalid posting-list metadata"
    );
    assert_eq!(
        message(blocked().numbers(&[2, 1])),
        "invalid posting-list metadata"
    );
    assert_eq!(
        message(blocked().numbers(&[2, 2]).number(0)),
        "trailing checkpoint bytes"
    );
    let twice = Pieces::new(1)
        .number(2)
        .doc(7, 0, "")
        .doc(7, 0, "")
        .number(0);
    assert_eq!(message(twice), "duplicate rowid in checkpoint");
    let again = Pieces::new(2)
        .number(1)
        .doc(7, 0, "")
        .number(0)
        .number(1)
        .doc(7, 0, "")
        .number(0);
    assert_eq!(message(again), "duplicate rowid in checkpoint");
}

#[test]
fn a_term_has_one_list() {
    let list = |pieces: Pieces| {
        pieces
            .text(b"a")
            .number(1)
            .posting(0, 2, &[0, 1])
            .number(1)
            .numbers(&[1, 0, 2, 2])
            .numbers(&[2, 2])
    };
    let pieces = list(list(one_doc(2)));
    assert_eq!(
        corrupt(decode_snapshot(&pieces.bytes)),
        "invalid or duplicate term"
    );
}

#[test]
fn broken_checkpoint_files_are_told_apart() {
    let payload = encode_snapshot(&Snapshot::default()).unwrap();
    let file = encode_frame(&SEGMENT_MAGIC, &payload).unwrap();
    assert_eq!(read_checkpoint(&file).unwrap().live_docs, 0);

    assert_eq!(
        corrupt(read_checkpoint(&file[..15])),
        "invalid checkpoint header"
    );
    let mut magic = file.clone();
    magic[7] = b'9';
    assert_eq!(corrupt(read_checkpoint(&magic)), "invalid checkpoint header");
    let mut longer = file.clone();
    longer.push(0);
    assert_eq!(corrupt(read_checkpoint(&longer)), "invalid checkpoint length");
    let mut damaged = file.clone();
    damaged[16] ^= 1;
    assert_eq!(
        corrupt(read_checkpoint(&damaged)),
        "checkpoint checksum mismatch"
    );
}

#[test]
fn counts_are_held_against_the_bytes_left() {
    let mut bytes = Vec::new();
    put_u32(&mut bytes, 2);
    bytes.extend_from_slice(&[0; 8]);
    let mut input = bytes.as_slice();
    assert_eq!(read_count(&mut input, 4, "too many").unwrap(), 2);
    let mut input = bytes.as_slice();
    assert_eq!(corrupt(read_count(&mut input, 5, "too many")), "too many");
    let mut input = bytes.as_slice();
    assert_eq!(read_count(&mut input, 0, "too many").unwrap(), 2);

    let mut out = Vec::new();
    put_len(&mut out, 3, "field").unwrap();
    assert_eq!(out, [3, 0, 0, 0]);
    assert_eq!(
        refused(put_len(&mut out, u32::MAX as usize + 1, "field")),
        "field count exceeds 32-bit format limit"
    );
}

#[test]
fn checkpoint_files_are_known_by_name() {
    assert!(is_checkpoint_name("segment-1-2.kst"));
    assert!(!is_checkpoint_name("segment-1-2.tmp"));
    assert!(!is_checkpoint_name("kestrel.wal"));
    assert!(!is_checkpoint_name("old-segment-1.kst"));
}

#[test]
fn damaged_checkpoints_are_refused() {
    let current = Snapshot::default().with_commit(
        3,
        vec![
            (1, vec!["one two".to_owned()]),
            (2, vec!["two".to_owned(), "three".to_owned()]),
        ],
        Vec::new(),
    );
    let payload = encode_snapshot(&current).unwrap();
    let operations = vec![Operation::Upsert {
        rowid: 1,
        fields: vec!["one".to_owned()],
    }];
    let legacy = encode_commit(3, &operations).unwrap();
    for file in [
        encode_frame(&SEGMENT_MAGIC, &payload).unwrap(),
        encode_frame(&LEGACY_SEGMENT_MAGIC, &legacy).unwrap(),
    ] {
        assert!(read_checkpoint(&file).is_ok());
        for index in 0..file.len() {
            assert!(read_checkpoint(&file[..index]).is_err());
            for bit in 0..8 {
                let mut damaged = file.clone();
                damaged[index] ^= 1 << bit;
                assert!(read_checkpoint(&damaged).is_err());
            }
        }
        let mut longer = file.clone();
        longer.push(0);
        assert!(read_checkpoint(&longer).is_err());
    }
}

#[test]
fn commits_are_read_only_as_written() {
    let operations = vec![
        Operation::Upsert {
            rowid: -5,
            fields: vec!["naïve".to_owned(), String::new()],
        },
        Operation::Delete { rowid: 9 },
    ];
    let payload = encode_commit(7, &operations).unwrap();
    for index in 0..payload.len() {
        for bit in 0..8 {
            let mut changed = payload.clone();
            changed[index] ^= 1 << bit;
            if let Ok((generation, read)) = decode_commit(&changed) {
                assert_eq!(encode_commit(generation, &read).unwrap(), changed);
            }
        }
    }
}

#[test]
fn payloads_end_with_their_last_record() {
    let current = Snapshot::default().with_commit(
        3,
        vec![
            (1, vec!["one two one".to_owned()]),
            (2, vec!["two".to_owned(), "three".to_owned()]),
        ],
        Vec::new(),
    );
    let mut payload = encode_snapshot(&current).unwrap();
    for kept in 0..payload.len() {
        corrupt(decode_snapshot(&payload[..kept]));
    }
    assert!(decode_snapshot(&payload).is_ok());
    payload.push(0);
    assert_eq!(corrupt(decode_snapshot(&payload)), "trailing checkpoint bytes");

    let mut commit =
        encode_commit(3, &vec![upsert(1, "one"), Operation::Delete { rowid: 2 }]).unwrap();
    for kept in 0..commit.len() {
        corrupt(decode_commit(&commit[..kept]));
    }
    assert!(decode_commit(&commit).is_ok());
    commit.push(0);
    assert_eq!(corrupt(decode_commit(&commit)), "trailing commit bytes");
}
