use wiktionary_import::{
    is_blank, split_batches, word_outcome, BatchReport, Batcher, Decoded, ErrorKind, Form, Inbound, LabelCache,
    PairCache, Rusqlite, Step, Word,
};

fn word(w: &str, pos: &str, lang: &str, code: &str) -> Word {
    Word::new(w.to_string(), pos.to_string(), lang.to_string(), code.to_string(), None)
}

fn word_with_forms(w: &str, pos: &str, forms: Vec<Form>) -> Word {
    Word::new(w.to_string(), pos.to_string(), "English".to_string(), "en".to_string(), Some(forms))
}

fn form(f: &str, tags: &[&str]) -> Form {
    Form::new(f.to_string(), Some(tags.iter().map(|t| t.to_string()).collect()))
}

fn count(db: &Rusqlite, table: &str) -> i64 {
    db.conn
        .query_row(&format!("SELECT COUNT(*) FROM {}", table), [], |r| r.get(0))
        .unwrap()
}

fn open() -> Rusqlite {
    Rusqlite::new(":memory:").unwrap()
}

#[test]
fn example_corpus_counts() {
    let mut db = open();
    let batch = vec![
        word("run", "verb", "English", "en"),
        word("run", "verb", "English", "en"),
        word_with_forms("fast", "adverb", vec![form("faster", &["comparative"])]),
    ];
    let rep = db.bulk_insert(&batch).unwrap();
    assert_eq!(rep, BatchReport { words: 2, conflicts: 1 });
    assert_eq!(count(&db, "languages"), 1);
    assert_eq!(count(&db, "part_of_speech"), 2);
    assert_eq!(count(&db, "words"), 2);
    assert_eq!(count(&db, "word_forms"), 1);
}

#[test]
fn duplicate_word_is_a_skipped_conflict() {
    let mut db = open();
    assert_eq!(db.insert_entry(&word("run", "verb", "English", "en")).unwrap(), true);
    assert_eq!(db.insert_entry(&word("run", "verb", "English", "en")).unwrap(), false);
    assert_eq!(count(&db, "words"), 1);
}

#[test]
fn duplicate_word_ignores_case() {
    let mut db = open();
    let rep = db.bulk_insert(&vec![word("Run", "verb", "English", "en"), word("run", "verb", "English", "en")]).unwrap();
    assert_eq!(rep, BatchReport { words: 1, conflicts: 1 });
    assert_eq!(count(&db, "words"), 1);
}

#[test]
fn same_word_other_part_of_speech_is_kept() {
    let mut db = open();
    let rep = db.bulk_insert(&vec![word("run", "verb", "English", "en"), word("run", "noun", "English", "en")]).unwrap();
    assert_eq!(rep, BatchReport { words: 2, conflicts: 0 });
}

#[test]
fn lookup_rows_created_once_across_batches() {
    let mut db = open();
    db.bulk_insert(&vec![word("a", "noun", "English", "en"), word("b", "noun", "English", "en")]).unwrap();
    db.bulk_insert(&vec![word("c", "noun", "English", "en")]).unwrap();
    db.insert_entry(&word("d", "noun", "English", "en")).unwrap();
    db.bulk_insert(&vec![word("e", "verb", "German", "de")]).unwrap();
    assert_eq!(count(&db, "languages"), 2);
    assert_eq!(count(&db, "part_of_speech"), 2);
    assert_eq!(count(&db, "words"), 5);
}

#[test]
fn word_rows_reference_their_lookup_rows() {
    let mut db = open();
    db.bulk_insert(&vec![word("a", "noun", "English", "en"), word("b", "verb", "German", "de")]).unwrap();
    let (pos, lang, code): (String, String, String) = db
        .conn
        .query_row(
            "SELECT p.label, l.label, l.language_code FROM words w \
             JOIN part_of_speech p ON p.id = w.pos_id JOIN languages l ON l.id = w.lang_id WHERE w.word = 'b'",
            [],
            |r| Ok((r.get(0)?, r.get(1)?, r.get(2)?)),
        )
        .unwrap();
    assert_eq!((pos.as_str(), lang.as_str(), code.as_str()), ("verb", "German", "de"));
}

#[test]
fn forms_without_tags_write_no_rows() {
    let mut db = open();
    let forms = vec![Form::new("ran".to_string(), None), form("runs", &["present", "singular"])];
    db.bulk_insert(&vec![word_with_forms("run", "verb", forms)]).unwrap();
    assert_eq!(count(&db, "word_forms"), 2);
}

#[test]
fn failed_batch_leaves_no_rows() {
    let mut db = open();
    db.conn.execute("DROP TABLE word_forms", []).unwrap();
    let batch = vec![word("a", "noun", "English", "en"), word_with_forms("b", "noun", vec![form("bs", &["plural"])])];
    let err = db.bulk_insert(&batch).unwrap_err();
    assert_eq!(err.kind(), ErrorKind::Transaction);
    assert!(!err.is_fatal());
    assert_eq!(count(&db, "words"), 0);
}

#[test]
fn existing_lookup_row_is_a_lookup_error() {
    let mut db = open();
    db.conn.execute("INSERT INTO part_of_speech (label) VALUES ('noun')", []).unwrap();
    let err = db.bulk_insert(&vec![word("a", "noun", "English", "en")]).unwrap_err();
    assert_eq!(err.kind(), ErrorKind::Lookup);
    assert!(err.is_fatal());
    assert_eq!(count(&db, "words"), 0);
}

#[test]
fn unopenable_database_is_a_connection_error() {
    let err = Rusqlite::new("/nonexistent-directory/sub/db.sqlite").err().unwrap();
    assert_eq!(err.kind(), ErrorKind::Connection);
}

#[test]
fn worker_steps() {
    let mut db = open();
    match db.handle(Inbound::Batch(vec![word("a", "noun", "English", "en")])) {
        Step::Committed(rep) => assert_eq!(rep, BatchReport { words: 1, conflicts: 0 }),
        other => panic!("unexpected {:?}", other),
    }
    db.conn.execute("DROP TABLE word_forms", []).unwrap();
    let step = db.handle(Inbound::Batch(vec![word_with_forms("b", "noun", vec![form("bs", &["plural"])])]));
    assert!(matches!(step, Step::RolledBack(_)));
    assert!(step.continues());
    let step = db.handle(Inbound::Closed);
    assert!(matches!(step, Step::Finished));
    assert!(!step.continues());
}

#[test]
fn worker_stops_on_lookup_failure() {
    let mut db = open();
    db.conn.execute("INSERT INTO languages (label, language_code) VALUES ('English', 'en')", []).unwrap();
    let step = db.handle(Inbound::Batch(vec![word("a", "noun", "English", "en")]));
    assert!(matches!(step, Step::Failed(_)));
    assert!(!step.continues());
}

#[test]
fn batches_commit_in_order() {
    let mut db = open();
    let batches = vec![
        vec![word("a", "noun", "English", "en")],
        vec![word("b", "noun", "English", "en"), word("a", "noun", "English", "en")],
        vec![word("c", "verb", "English", "en")],
    ];
    let report = db.insert_batches(&batches);
    assert_eq!(report.committed, vec![true, true, true]);
    assert_eq!(report.conflicts, 1);
    assert!(report.failure.is_none());
    let ids: Vec<String> = {
        let mut stmt = db.conn.prepare("SELECT word FROM words ORDER BY id").unwrap();
        let rows = stmt.query_map([], |r| r.get(0)).unwrap();
        rows.map(|r| r.unwrap()).collect()
    };
    assert_eq!(ids, vec!["a", "b", "c"]);
}

#[test]
fn run_goes_on_after_rollback_and_stops_on_lookup_failure() {
    let mut db = open();
    db.conn.execute("DROP TABLE word_forms", []).unwrap();
    db.conn.execute("INSERT INTO part_of_speech (label) VALUES ('verb')", []).unwrap();
    let batches = vec![
        vec![word_with_forms("a", "noun", vec![form("as", &["plural"])])],
        vec![word("b", "noun", "English", "en")],
        vec![word("c", "verb", "English", "en")],
        vec![word("d", "noun", "English", "en")],
    ];
    let report = db.insert_batches(&batches);
    assert_eq!(report.committed, vec![false, true, false]);
    assert_eq!(report.failure.map(|e| e.kind()), Some(ErrorKind::Lookup));
    assert_eq!(count(&db, "words"), 1);
}

fn decoded(ws: &[&str], malformed_after: &[usize]) -> Vec<Decoded> {
    let mut out = Vec::new();
    for (i, w) in ws.iter().enumerate() {
        out.push(Decoded::Entry(word(w, "noun", "English", "en")));
        if malformed_after.contains(&i) {
            out.push(Decoded::Malformed);
        }
    }
    out
}

#[test]
fn malformed_lines_are_counted_and_skipped() {
    let lines = decoded(&["a", "b", "c", "d", "e"], &[0, 2, 4]);
    let (batches, stats) = split_batches(lines, 2);
    let sizes: Vec<usize> = batches.iter().map(|b| b.len()).collect();
    assert_eq!(sizes, vec![2, 2, 1]);
    let words: Vec<&str> = batches.iter().flatten().map(|w| w.word.as_str()).collect();
    assert_eq!(words, vec!["a", "b", "c", "d", "e"]);
    assert_eq!(stats.lines, 8);
    assert_eq!(stats.errors, 3);
}

#[test]
fn exact_multiple_leaves_no_partial_batch() {
    let (batches, stats) = split_batches(decoded(&["a", "b", "c", "d"], &[]), 2);
    assert_eq!(batches.len(), 2);
    assert_eq!(stats.errors, 0);
}

#[test]
fn empty_corpus_gives_no_batches() {
    let (batches, stats) = split_batches(Vec::new(), 5000);
    assert!(batches.is_empty());
    assert_eq!((stats.lines, stats.errors), (0, 0));
}

#[test]
fn zero_batch_size_sends_each_entry() {
    let (batches, _) = split_batches(decoded(&["a", "b"], &[]), 0);
    assert_eq!(batches.len(), 2);
}

#[test]
fn batcher_flushes_full_and_final_batches() {
    let mut b = Batcher::new(2, 0);
    assert!(b.push(Decoded::Entry(word("a", "noun", "English", "en"))).is_none());
    assert!(b.push(Decoded::Malformed).is_none());
    let full = b.push(Decoded::Entry(word("b", "noun", "English", "en"))).unwrap();
    assert_eq!(full.len(), 2);
    assert!(b.push(Decoded::Entry(word("c", "noun", "English", "en"))).is_none());
    b.add_parse_time(40);
    b.add_parse_time(2);
    let stats = b.stats();
    assert_eq!((stats.lines, stats.errors, stats.parse_nanos), (4, 1, 42));
    let last = b.finish().unwrap();
    assert_eq!(last[0].word, "c");
}

#[test]
fn batcher_with_nothing_pending_flushes_nothing() {
    let b = Batcher::new(3, 0);
    assert!(b.finish().is_none());
}

#[test]
fn batcher_stops_at_line_cap() {
    let mut b = Batcher::new(10, 2);
    b.push(Decoded::Malformed);
    assert!(!b.should_stop());
    b.push(Decoded::Entry(word("a", "noun", "English", "en")));
    assert!(b.should_stop());
    let mut unlimited = Batcher::new(10, 0);
    unlimited.push(Decoded::Malformed);
    assert!(!unlimited.should_stop());
}

#[test]
fn blank_lines() {
    assert!(is_blank(""));
    assert!(!is_blank("{}"));
}

#[test]
fn label_cache_lookups() {
    let mut c = LabelCache::new();
    assert_eq!(c.get(&"noun".to_string()), None);
    c.insert("noun".to_string(), 7);
    c.insert("verb".to_string(), 9);
    assert_eq!(c.get(&"noun".to_string()), Some(7));
    assert_eq!(c.get(&"verb".to_string()), Some(9));
    assert_eq!(c.get(&"adverb".to_string()), None);
    assert_eq!(c.len(), 2);
}

#[test]
fn same_language_name_with_two_codes_gives_two_rows() {
    let mut db = open();
    db.bulk_insert(&vec![word("a", "noun", "Chinese", "zh"), word("b", "noun", "Chinese", "cmn")]).unwrap();
    db.bulk_insert(&vec![word("c", "noun", "Chinese", "zh")]).unwrap();
    assert_eq!(count(&db, "languages"), 2);
    let code: String = db
        .conn
        .query_row(
            "SELECT l.language_code FROM words w JOIN languages l ON l.id = w.lang_id WHERE w.word = 'b'",
            [],
            |r| r.get(0),
        )
        .unwrap();
    assert_eq!(code, "cmn");
}

#[test]
fn conflicts_counted_per_duplicate() {
    let mut db = open();
    db.bulk_insert(&vec![word("a", "noun", "English", "en")]).unwrap();
    let rep = db
        .bulk_insert(&vec![
            word("A", "noun", "English", "en"),
            word("b", "noun", "English", "en"),
            word("b", "noun", "English", "en"),
        ])
        .unwrap();
    assert_eq!(rep, BatchReport { words: 1, conflicts: 2 });
    assert_eq!(count(&db, "words"), 2);
}

#[test]
fn single_insert_lookup_failure_writes_nothing() {
    let mut db = open();
    db.conn.execute("INSERT INTO part_of_speech (label) VALUES ('noun')", []).unwrap();
    let err = db.insert_entry(&word("a", "noun", "English", "en")).unwrap_err();
    assert_eq!(err.kind(), ErrorKind::Lookup);
    assert_eq!(count(&db, "words"), 0);
}

#[test]
fn single_insert_other_failure_is_an_insert_error() {
    let mut db = open();
    db.conn.execute("DROP TABLE words", []).unwrap();
    let err = db.insert_entry(&word("a", "noun", "English", "en")).unwrap_err();
    assert_eq!(err.kind(), ErrorKind::Insert);
    assert!(err.is_fatal());
}

#[test]
fn word_outcomes() {
    assert_eq!(word_outcome(true, false, 3, 4), Some((4, 4)));
    assert_eq!(word_outcome(false, true, 3, 4), Some((3, 5)));
    assert_eq!(word_outcome(false, false, 3, 4), None);
}

#[test]
fn pair_cache_lookups() {
    let mut c = PairCache::new();
    c.insert("Chinese".to_string(), "zh".to_string(), 1);
    c.insert("Chinese".to_string(), "cmn".to_string(), 2);
    assert_eq!(c.get(&"Chinese".to_string(), &"zh".to_string()), Some(1));
    assert_eq!(c.get(&"Chinese".to_string(), &"cmn".to_string()), Some(2));
    assert_eq!(c.get(&"Chinese".to_string(), &"yue".to_string()), None);
    assert_eq!(c.len(), 2);
}
