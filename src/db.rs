//! The persistence worker: resolves lookup rows through the dedup caches and
//! writes each batch of entries in one transaction.

use vstd::prelude::*;

use crate::batch::batches_view;
use crate::cache::{LabelCache, PairCache};
use crate::entry::{form_rows, rows_of_forms, tag_rows, Form, Word};
use crate::store;

verus! {

const PRAGMAS: &'static str = "PRAGMA journal_mode = MEMORY;
PRAGMA synchronous = 0;
PRAGMA cache_size = 1000000;
PRAGMA locking_mode = EXCLUSIVE;
PRAGMA temp_store = MEMORY;";

const SCHEMA: &'static str = "CREATE TABLE IF NOT EXISTS part_of_speech (
    id INTEGER PRIMARY KEY,
    label TEXT NOT NULL,
    UNIQUE (label)
);
CREATE TABLE IF NOT EXISTS languages (
    id INTEGER PRIMARY KEY,
    label TEXT NOT NULL,
    language_code TEXT NOT NULL,
    UNIQUE (label, language_code)
);
CREATE TABLE IF NOT EXISTS word_forms (
    id INTEGER PRIMARY KEY,
    form TEXT NOT NULL,
    tag TEXT NOT NULL
);
CREATE TABLE IF NOT EXISTS words (
    id INTEGER PRIMARY KEY,
    word TEXT NOT NULL COLLATE NOCASE,
    pos_id INTEGER NOT NULL,
    lang_id INTEGER NOT NULL,
    FOREIGN KEY (pos_id) REFERENCES part_of_speech (id),
    FOREIGN KEY (lang_id) REFERENCES languages (id),
    UNIQUE (word, pos_id)
);
CREATE INDEX IF NOT EXISTS word_text_idx ON words (word COLLATE NOCASE);";

const INSERT_LANGUAGE: &'static str = "INSERT INTO languages (label, language_code) VALUES (?1, ?2)";

const INSERT_POS: &'static str = "INSERT INTO part_of_speech (label) VALUES (?1)";

const INSERT_WORD: &'static str = "INSERT INTO words (word, pos_id, lang_id) VALUES (?1, ?2, ?3)";

const BEGIN: &'static str = "BEGIN";

const COMMIT: &'static str = "COMMIT";

const INSERT_FORM: &'static str = "INSERT INTO word_forms (form, tag) VALUES (?1, ?2)";

/// The classes of storage failure.
#[derive(PartialEq, Eq, Structural, Clone, Copy, Debug)]
pub enum ErrorKind {
    /// Opening the database or setting up its schema failed.
    Connection,
    /// Creating a language or part-of-speech row failed.
    Lookup,
    /// A statement of a single-entry insert failed.
    Insert,
    /// A batch transaction failed and was rolled back.
    Transaction,
}

#[derive(Debug)]
pub enum DbError {
    Connection(rusqlite::Error),
    Lookup { inner: rusqlite::Error, label: String },
    Insert { inner: rusqlite::Error, query: String },
    Transaction { inner: rusqlite::Error, query: String },
}

impl DbError {
    pub open spec fn spec_kind(&self) -> ErrorKind {
        match self {
            DbError::Connection(_) => ErrorKind::Connection,
            DbError::Lookup { .. } => ErrorKind::Lookup,
            DbError::Insert { .. } => ErrorKind::Insert,
            DbError::Transaction { .. } => ErrorKind::Transaction,
        }
    }

    pub fn kind(&self) -> (r: ErrorKind)
        ensures
            r == self.spec_kind(),
    {
        match self {
            DbError::Connection(_) => ErrorKind::Connection,
            DbError::Lookup { .. } => ErrorKind::Lookup,
            DbError::Insert { .. } => ErrorKind::Insert,
            DbError::Transaction { .. } => ErrorKind::Transaction,
        }
    }

    /// A failed batch transaction leaves the run able to go on; any other
    /// storage failure ends it.
    pub fn is_fatal(&self) -> (r: bool)
        ensures
            r == (self.spec_kind() != ErrorKind::Transaction),
    {
        !matches!(self, DbError::Transaction { .. })
    }
}

/// What writing one batch did.
#[derive(Debug, Clone, Copy, PartialEq, Eq)]
pub struct BatchReport {
    /// Word rows written.
    pub words: usize,
    /// Entries whose `(word, part of speech)` row already existed.
    pub conflicts: usize,
}

/// What the persistence worker is handed: the next batch, or the news that
/// the queue is closed and drained.
pub enum Inbound {
    Batch(Vec<Word>),
    Closed,
}

/// What the persistence worker did with one event.
#[derive(Debug)]
pub enum Step {
    /// The batch was committed.
    Committed(BatchReport),
    /// The batch was rolled back; the run goes on with the next one.
    RolledBack(DbError),
    /// A failure that ends the run.
    Failed(DbError),
    /// The queue is closed: the worker stops.
    Finished,
}

impl Step {
    /// Whether the worker goes on to the next event.
    pub open spec fn spec_continues(&self) -> bool {
        self is Committed || self is RolledBack
    }

    pub fn continues(&self) -> (r: bool)
        ensures
            r == self.spec_continues(),
    {
        matches!(self, Step::Committed(_) | Step::RolledBack(_))
    }
}

/// The batches of `bs` whose flag (the flag at the same position) is set,
/// in order.
pub open spec fn kept(bs: Seq<Seq<Word>>, flags: Seq<bool>) -> Seq<Seq<Word>>
    decreases bs.len(),
{
    if bs.len() == 0 {
        seq![]
    } else {
        let rest = kept(bs.drop_last(), flags.drop_last());
        if flags.last() {
            rest.push(bs.last())
        } else {
            rest
        }
    }
}

/// What a whole run of batches came to.
#[derive(Debug)]
pub struct RunReport {
    /// For each batch handed to the store, in order: whether it committed.
    pub committed: Vec<bool>,
    /// Entries of the committed batches skipped because their word already
    /// existed (saturating).
    pub conflicts: usize,
    /// The failure that ended the run early, if any.
    pub failure: Option<DbError>,
}

/// A word row: the word, its part-of-speech id and its language id.
pub type WordRow = (Seq<char>, i64, i64);

/// One word insert handed to the store: the row, whether it was written,
/// and whether a failure was a uniqueness conflict.
pub type Attempt = (WordRow, bool, bool);

/// A word insert that lets its batch go on: written, or skipped as a
/// uniqueness conflict.
pub open spec fn tolerated(a: Attempt) -> bool {
    a.1 || a.2
}

/// The rows of the attempts that were written, in order.
pub open spec fn written_rows(a: Seq<Attempt>) -> Seq<WordRow>
    decreases a.len(),
{
    if a.len() == 0 {
        seq![]
    } else {
        written_rows(a.drop_last()) + if a.last().1 {
            seq![a.last().0]
        } else {
            seq![]
        }
    }
}

/// The number of attempts skipped as uniqueness conflicts.
pub open spec fn conflict_count(a: Seq<Attempt>) -> nat
    decreases a.len(),
{
    if a.len() == 0 {
        0
    } else {
        conflict_count(a.drop_last()) + if !a.last().1 && a.last().2 {
            1nat
        } else {
            0nat
        }
    }
}

/// What the outcome of one word insert does to the running counts of
/// written words and skipped conflicts: a written row counts as a word, a
/// uniqueness conflict is skipped and counted, and any other failure gives
/// `None`, which aborts the write.
pub fn word_outcome(inserted: bool, unique: bool, words: usize, conflicts: usize) -> (r: Option<(usize, usize)>)
    requires
        words < usize::MAX,
        conflicts < usize::MAX,
    ensures
        inserted ==> r == Some(((words + 1) as usize, conflicts)),
        !inserted && unique ==> r == Some((words, (conflicts + 1) as usize)),
        !inserted && !unique ==> r is None,
{
    if inserted {
        Some((words + 1, conflicts))
    } else if unique {
        Some((words, conflicts + 1))
    } else {
        None
    }
}

/// What the importer has written, as far as its own statements show it.
pub struct StoreModel {
    /// Cached languages (name and code) and their row ids, in creation order.
    pub lang_keys: Seq<(Seq<char>, Seq<char>)>,
    pub lang_ids: Seq<i64>,
    /// Cached part-of-speech labels and their row ids, in creation order.
    pub pos_keys: Seq<Seq<char>>,
    pub pos_ids: Seq<i64>,
    /// The language rows created: label and language code.
    pub lang_rows: Seq<(Seq<char>, Seq<char>)>,
    /// The part-of-speech rows created.
    pub pos_rows: Seq<Seq<char>>,
    /// The word rows written (in committed transactions, for batches).
    pub word_rows: Seq<WordRow>,
    /// The word-form rows written (in committed transactions, for batches).
    pub form_rows: Seq<(Seq<char>, Seq<char>)>,
    /// The batches committed, in order.
    pub committed: Seq<Seq<Word>>,
    /// Every word insert handed to the store, in order: the row, whether it
    /// was written, and, when it was not, whether SQLite reported it as a
    /// uniqueness conflict.
    pub attempts: Seq<Attempt>,
    /// Entries skipped as uniqueness conflicts (in committed batches, and in
    /// single-entry inserts).
    pub skipped: nat,
    /// Every batch handed to `bulk_insert`, in order.
    pub submitted: Seq<Seq<Word>>,
}

impl StoreModel {
    /// The row id cached for a language (name and code).
    pub open spec fn lang_id(&self, label: (Seq<char>, Seq<char>)) -> i64 {
        self.lang_ids[self.lang_keys.index_of(label)]
    }

    /// The row id cached for a part-of-speech label.
    pub open spec fn pos_id(&self, label: Seq<char>) -> i64 {
        self.pos_ids[self.pos_keys.index_of(label)]
    }
}

/// In a sequence without duplicates, the position of an element is the one
/// it is found at.
proof fn lemma_index_of_unique<A>(s: Seq<A>, i: int)
    requires
        s.no_duplicates(),
        0 <= i < s.len(),
    ensures
        s.index_of(s[i]) == i,
{
    assert(s.contains(s[i]));
}

/// All the form rows of a run of entries, in order.
pub open spec fn batch_form_rows(ws: Seq<Word>) -> Seq<(Seq<char>, Seq<char>)>
    decreases ws.len(),
{
    if ws.len() == 0 {
        seq![]
    } else {
        batch_form_rows(ws.drop_last()) + form_rows(ws.last())
    }
}

/// The word row that the model's caches give an entry.
pub open spec fn row_of(m: StoreModel, w: Word) -> WordRow {
    (w.word@, m.pos_id(w.pos@), m.lang_id(lang_key(w)))
}

/// Between two states, the lookup caches only grew, by labels of `ws`, and
/// nothing else changed.
pub open spec fn lookups_grew(before: StoreModel, after: StoreModel, ws: Seq<Word>) -> bool {
    &&& after.lang_keys.len() >= before.lang_keys.len()
    &&& after.lang_keys.subrange(0, before.lang_keys.len() as int) == before.lang_keys
    &&& after.lang_ids.len() >= before.lang_ids.len()
    &&& after.lang_ids.subrange(0, before.lang_ids.len() as int) == before.lang_ids
    &&& forall|k: int| before.lang_keys.len() <= k < after.lang_keys.len()
        ==> lang_labels(ws).contains(#[trigger] after.lang_keys[k])
    &&& after.pos_keys.len() >= before.pos_keys.len()
    &&& after.pos_keys.subrange(0, before.pos_keys.len() as int) == before.pos_keys
    &&& after.pos_ids.len() >= before.pos_ids.len()
    &&& after.pos_ids.subrange(0, before.pos_ids.len() as int) == before.pos_ids
    &&& forall|k: int| before.pos_keys.len() <= k < after.pos_keys.len()
        ==> pos_labels(ws).contains(#[trigger] after.pos_keys[k])
}

/// Writes the `(form, tag)` rows of one entry, in order, stopping at the
/// first failure. The ghost result lists the rows whose insert succeeded.
fn write_forms(conn: &rusqlite::Connection, w: &Word) -> (r: (Result<(), rusqlite::Error>, Ghost<Seq<(Seq<char>, Seq<char>)>>))
    ensures
        r.0 is Ok ==> r.1@ == form_rows(*w),
{
    let ghost mut written: Seq<(Seq<char>, Seq<char>)> = seq![];
    match &w.forms {
        None => {},
        Some(forms) => {
            let mut j: usize = 0;
            while j < forms.len()
                invariant
                    w.forms == Some(*forms),
                    0 <= j <= forms@.len(),
                    written == rows_of_forms(forms@.subrange(0, j as int)),
                decreases forms@.len() - j,
            {
                let f: &Form = &forms[j];
                proof {
                    assert(forms@.subrange(0, j as int + 1).drop_last() =~= forms@.subrange(0, j as int));
                }
                match &f.tags {
                    None => {
                        assert(tag_rows(*f) =~= seq![]);
                        assert(written + tag_rows(*f) =~= written);
                    },
                    Some(tags) => {
                        let ghost start = written;
                        let mut k: usize = 0;
                        while k < tags.len()
                            invariant
                                f.tags == Some(*tags),
                                0 <= k <= tags@.len(),
                                written == start + tags@.subrange(0, k as int).map_values(
                                    |t: String| (f.form@, t@),
                                ),
                            decreases tags@.len() - k,
                        {
                            match store::execute_pair(conn, INSERT_FORM, &f.form, &tags[k]) {
                                Ok(_) => {},
                                Err(e) => return (Err(e), Ghost(written)),
                            }
                            proof {
                                written = written.push((f.form@, tags@[k as int]@));
                                assert(tags@.subrange(0, k as int + 1).map_values(|t: String| (f.form@, t@))
                                    =~= tags@.subrange(0, k as int).map_values(|t: String| (f.form@, t@)).push(
                                    (f.form@, tags@[k as int]@),
                                ));
                            }
                            k = k + 1;
                        }
                        assert(tags@.subrange(0, k as int) =~= tags@);
                    },
                }
                j = j + 1;
            }
            assert(forms@.subrange(0, j as int) =~= forms@);
        },
    }
    (Ok(()), Ghost(written))
}

proof fn lemma_grew_refl(m: StoreModel, ws: Seq<Word>)
    ensures
        lookups_grew(m, m, ws),
{
    assert(m.lang_keys.subrange(0, m.lang_keys.len() as int) =~= m.lang_keys);
    assert(m.lang_ids.subrange(0, m.lang_ids.len() as int) =~= m.lang_ids);
    assert(m.pos_keys.subrange(0, m.pos_keys.len() as int) =~= m.pos_keys);
    assert(m.pos_ids.subrange(0, m.pos_ids.len() as int) =~= m.pos_ids);
}

/// Two states agree on everything but the lookup caches and rows.
pub open spec fn same_writes(a: StoreModel, b: StoreModel) -> bool {
    &&& a.word_rows == b.word_rows
    &&& a.form_rows == b.form_rows
    &&& a.committed == b.committed
    &&& a.attempts == b.attempts
    &&& a.skipped == b.skipped
    &&& a.submitted == b.submitted
}

/// The new attempts of `after` over `before`.
pub open spec fn new_attempts(before: StoreModel, after: StoreModel) -> Seq<Attempt> {
    after.attempts.subrange(before.attempts.len() as int, after.attempts.len() as int)
}

/// A batch was written and committed: every entry's word row was handed to
/// the store, in order, with the ids of its cached lookup rows, and each was
/// either written or skipped as a uniqueness conflict; the rows written, the
/// form rows, the counts and the committed batches follow.
pub open spec fn batch_written(before: StoreModel, after: StoreModel, ws: Seq<Word>, rep: BatchReport) -> bool {
    let tried = new_attempts(before, after);
    &&& cached_upto(after, ws, ws.len() as int)
    &&& after.attempts.len() == before.attempts.len() + ws.len()
    &&& after.attempts.subrange(0, before.attempts.len() as int) == before.attempts
    &&& forall|k: int|
        0 <= k < ws.len() ==> {
            &&& (#[trigger] after.attempts[before.attempts.len() + k]).0 == row_of(after, ws[k])
            &&& tolerated(after.attempts[before.attempts.len() + k])
        }
    &&& after.word_rows == before.word_rows + written_rows(tried)
    &&& rep.words == written_rows(tried).len()
    &&& rep.conflicts == conflict_count(tried)
    &&& after.skipped == before.skipped + rep.conflicts
    &&& after.form_rows == before.form_rows + batch_form_rows(ws)
    &&& after.committed == before.committed.push(ws)
}

/// A batch was not written: no word row, form row, skip or commit is
/// recorded, and any word inserts handed to the store were of the batch's
/// first entries.
pub open spec fn batch_not_written(before: StoreModel, after: StoreModel, ws: Seq<Word>) -> bool {
    &&& after.word_rows == before.word_rows
    &&& after.form_rows == before.form_rows
    &&& after.committed == before.committed
    &&& after.skipped == before.skipped
    &&& after.attempts.len() <= before.attempts.len() + ws.len()
    &&& after.attempts.subrange(0, before.attempts.len() as int) == before.attempts
}

/// A count as a `usize`, saturating at its largest value.
pub open spec fn capped(n: int) -> usize {
    if n > usize::MAX {
        usize::MAX
    } else {
        n as usize
    }
}

/// The first `n` entries of `ws` have their language and part of speech cached.
pub open spec fn cached_upto(m: StoreModel, ws: Seq<Word>, n: int) -> bool {
    forall|j: int|
        0 <= j < n ==> {
            &&& m.lang_keys.contains(#[trigger] lang_key(ws[j]))
            &&& m.pos_keys.contains(ws[j].pos@)
        }
}

/// The key of an entry's language row: its name and its code.
pub open spec fn lang_key(w: Word) -> (Seq<char>, Seq<char>) {
    (w.lang@, w.lang_code@)
}

/// The language keys of a run of entries.
pub open spec fn lang_labels(ws: Seq<Word>) -> Set<(Seq<char>, Seq<char>)> {
    Set::new(|l: (Seq<char>, Seq<char>)| exists|i: int| 0 <= i < ws.len() && lang_key(ws[i]) == l)
}

/// The part-of-speech labels of a run of entries.
pub open spec fn pos_labels(ws: Seq<Word>) -> Set<Seq<char>> {
    Set::new(|l: Seq<char>| exists|i: int| 0 <= i < ws.len() && ws[i].pos@ == l)
}

/// The persistence worker: owns the connection and the dedup caches.
pub struct Rusqlite {
    pub conn: rusqlite::Connection,
    langs: PairCache,
    speech_parts: LabelCache,
    /// Time spent writing batches, in nanoseconds.
    pub db_time: u128,
    lang_rows: Ghost<Seq<(Seq<char>, Seq<char>)>>,
    pos_rows: Ghost<Seq<Seq<char>>>,
    word_rows: Ghost<Seq<WordRow>>,
    form_rows: Ghost<Seq<(Seq<char>, Seq<char>)>>,
    committed: Ghost<Seq<Seq<Word>>>,
    attempts: Ghost<Seq<Attempt>>,
    skipped: Ghost<nat>,
    submitted: Ghost<Seq<Seq<Word>>>,
}

impl Rusqlite {
    pub closed spec fn view(&self) -> StoreModel {
        StoreModel {
            lang_keys: self.langs.keys(),
            lang_ids: self.langs.ids(),
            pos_keys: self.speech_parts.keys(),
            pos_ids: self.speech_parts.ids(),
            lang_rows: self.lang_rows@,
            pos_rows: self.pos_rows@,
            word_rows: self.word_rows@,
            form_rows: self.form_rows@,
            committed: self.committed@,
            attempts: self.attempts@,
            skipped: self.skipped@,
            submitted: self.submitted@,
        }
    }

    /// The time spent writing, in nanoseconds.
    pub closed spec fn spec_db_time(&self) -> u128 {
        self.db_time
    }

    /// The caches are well formed, and hold exactly the lookup rows created.
    pub closed spec fn wf(&self) -> bool {
        &&& self.langs.wf()
        &&& self.speech_parts.wf()
        &&& self.lang_rows@ == self.langs.keys()
        &&& self.pos_rows@ == self.speech_parts.keys()
    }

    /// What `wf` gives to callers.
    pub proof fn lemma_wf(&self)
        requires
            self.wf(),
        ensures
            self@.lang_keys.no_duplicates(),
            self@.pos_keys.no_duplicates(),
            self@.lang_keys.len() == self@.lang_ids.len(),
            self@.pos_keys.len() == self@.pos_ids.len(),
            self@.lang_rows == self@.lang_keys,
            self@.pos_rows == self@.pos_keys,
    {
        self.langs.lemma_wf_lens();
        self.speech_parts.lemma_wf_lens();
    }

    /// Opens the database at `path` and creates the schema if it is not
    /// there yet. The caches start empty.
    pub fn new(path: &str) -> (r: Result<Rusqlite, DbError>)
        ensures
            match r {
                Ok(db) => {
                    &&& db.wf()
                    &&& db@.lang_rows.len() == 0
                    &&& db@.pos_rows.len() == 0
                    &&& db@.word_rows.len() == 0
                    &&& db@.form_rows.len() == 0
                    &&& db@.committed.len() == 0
                    &&& db@.attempts.len() == 0
                    &&& db@.skipped == 0
                    &&& db@.submitted.len() == 0
                    &&& db.spec_db_time() == 0
                },
                Err(e) => e.spec_kind() == ErrorKind::Connection,
            },
    {
        let conn = match store::open(path) {
            Ok(c) => c,
            Err(e) => return Err(DbError::Connection(e)),
        };
        let db = Rusqlite {
            conn,
            langs: PairCache::new(),
            speech_parts: LabelCache::new(),
            db_time: 0,
            lang_rows: Ghost(Seq::empty()),
            pos_rows: Ghost(Seq::empty()),
            word_rows: Ghost(Seq::empty()),
            form_rows: Ghost(Seq::empty()),
            committed: Ghost(Seq::empty()),
            attempts: Ghost(Seq::empty()),
            skipped: Ghost(0),
            submitted: Ghost(Seq::empty()),
        };
        match db.create_tables() {
            Ok(_) => Ok(db),
            Err(e) => Err(e),
        }
    }

    /// Tunes the connection for bulk writes and creates the four tables and
    /// the word index, where they do not exist yet. The rollback journal is
    /// kept in memory: not durable, but a failed batch can still roll back.
    fn create_tables(&self) -> (r: Result<bool, DbError>)
        ensures
            match r {
                Ok(b) => b,
                Err(e) => e.spec_kind() == ErrorKind::Connection,
            },
    {
        match store::execute_batch(&self.conn, PRAGMAS) {
            Ok(_) => {},
            Err(e) => return Err(DbError::Connection(e)),
        }
        match store::execute_batch(&self.conn, SCHEMA) {
            Ok(_) => Ok(true),
            Err(e) => Err(DbError::Connection(e)),
        }
    }

    /// The id of the language row for `w`'s name and code, created and
    /// cached on first sight of that pair.
    fn resolve_lang(&mut self, w: &Word) -> (r: Result<i64, DbError>)
        requires
            old(self).wf(),
        ensures
            final(self).wf(),
            final(self).spec_db_time() == old(self).spec_db_time(),
            match r {
                Ok(id) => {
                    &&& final(self)@.lang_keys.contains(lang_key(*w))
                    &&& id == final(self)@.lang_id(lang_key(*w))
                    &&& if old(self)@.lang_keys.contains(lang_key(*w)) {
                        final(self)@ == old(self)@
                    } else {
                        final(self)@ == StoreModel {
                            lang_keys: old(self)@.lang_keys.push(lang_key(*w)),
                            lang_ids: old(self)@.lang_ids.push(id),
                            lang_rows: old(self)@.lang_rows.push(lang_key(*w)),
                            ..old(self)@
                        }
                    }
                },
                Err(e) => {
                    &&& e.spec_kind() == ErrorKind::Lookup
                    &&& final(self)@ == old(self)@
                    &&& !old(self)@.lang_keys.contains(lang_key(*w))
                },
            },
    {
        match self.langs.get(&w.lang, &w.lang_code) {
            Some(id) => Ok(id),
            None => {
                let params = vec![w.lang.clone(), w.lang_code.clone()];
                match store::execute_text(&self.conn, INSERT_LANGUAGE, &params) {
                    Ok(_) => {},
                    Err(e) => return Err(DbError::Lookup { inner: e, label: w.lang.clone() }),
                }
                let id = store::last_insert_rowid(&self.conn);
                self.langs.insert(w.lang.clone(), w.lang_code.clone(), id);
                proof {
                    let row = lang_key(*w);
                    self.lang_rows@ = self.lang_rows@.push(row);
                    self.langs.lemma_wf_lens();
                    lemma_index_of_unique(self.langs.keys(), self.langs.keys().len() - 1);
                }
                Ok(id)
            },
        }
    }

    /// The id of the part-of-speech row for `w`, created and cached on
    /// first sight of its label.
    fn resolve_pos(&mut self, w: &Word) -> (r: Result<i64, DbError>)
        requires
            old(self).wf(),
        ensures
            final(self).wf(),
            final(self).spec_db_time() == old(self).spec_db_time(),
            match r {
                Ok(id) => {
                    &&& final(self)@.pos_keys.contains(w.pos@)
                    &&& id == final(self)@.pos_id(w.pos@)
                    &&& if old(self)@.pos_keys.contains(w.pos@) {
                        final(self)@ == old(self)@
                    } else {
                        final(self)@ == StoreModel {
                            pos_keys: old(self)@.pos_keys.push(w.pos@),
                            pos_ids: old(self)@.pos_ids.push(id),
                            pos_rows: old(self)@.pos_rows.push(w.pos@),
                            ..old(self)@
                        }
                    }
                },
                Err(e) => {
                    &&& e.spec_kind() == ErrorKind::Lookup
                    &&& final(self)@ == old(self)@
                    &&& !old(self)@.pos_keys.contains(w.pos@)
                },
            },
    {
        match self.speech_parts.get(&w.pos) {
            Some(id) => Ok(id),
            None => {
                let params = vec![w.pos.clone()];
                match store::execute_text(&self.conn, INSERT_POS, &params) {
                    Ok(_) => {},
                    Err(e) => return Err(DbError::Lookup { inner: e, label: w.pos.clone() }),
                }
                let id = store::last_insert_rowid(&self.conn);
                self.speech_parts.insert(w.pos.clone(), id);
                proof {
                    self.pos_rows@ = self.pos_rows@.push(w.pos@);
                    self.speech_parts.lemma_wf_lens();
                    lemma_index_of_unique(self.speech_parts.keys(), self.speech_parts.keys().len() - 1);
                }
                Ok(id)
            },
        }
    }

    /// The pre-pass of a batch: every language and part of speech of the
    /// batch gets its lookup row and cache entry, outside any transaction.
    fn resolve_all(&mut self, package: &Vec<Word>) -> (r: Result<(), DbError>)
        requires
            old(self).wf(),
        ensures
            final(self).wf(),
            final(self).spec_db_time() == old(self).spec_db_time(),
            lookups_grew(old(self)@, final(self)@, package@),
            same_writes(old(self)@, final(self)@),
            match r {
                Ok(_) => cached_upto(final(self)@, package@, package@.len() as int),
                Err(e) => {
                    &&& e.spec_kind() == ErrorKind::Lookup
                    &&& !cached_upto(final(self)@, package@, package@.len() as int)
                },
            },
    {
        let mut i: usize = 0;
        assert(self@.lang_keys.subrange(0, self@.lang_keys.len() as int) =~= self@.lang_keys);
        assert(self@.lang_ids.subrange(0, self@.lang_ids.len() as int) =~= self@.lang_ids);
        assert(self@.pos_keys.subrange(0, self@.pos_keys.len() as int) =~= self@.pos_keys);
        assert(self@.pos_ids.subrange(0, self@.pos_ids.len() as int) =~= self@.pos_ids);
        while i < package.len()
            invariant
                self.wf(),
                self.spec_db_time() == old(self).spec_db_time(),
                0 <= i <= package@.len(),
                lookups_grew(old(self)@, self@, package@),
                same_writes(old(self)@, self@),
                cached_upto(self@, package@, i as int),
            decreases package@.len() - i,
        {
            let w = &package[i];
            let ghost m0 = self@;
            match self.resolve_lang(w) {
                Ok(_) => {},
                Err(e) => {
                    assert(!self@.lang_keys.contains(lang_key(package@[i as int])));
                    return Err(e);
                },
            }
            let ghost m1 = self@;
            proof {
                assert(lang_labels(package@).contains(lang_key(*w)));
                if !m0.lang_keys.contains(lang_key(*w)) {
                    assert(m1.lang_keys.subrange(0, m0.lang_keys.len() as int) =~= m0.lang_keys);
                    assert(m1.lang_ids.subrange(0, m0.lang_ids.len() as int) =~= m0.lang_ids);
                }
                assert(m1.lang_keys.subrange(0, old(self)@.lang_keys.len() as int) =~= old(self)@.lang_keys);
                assert(m1.lang_ids.subrange(0, old(self)@.lang_ids.len() as int) =~= old(self)@.lang_ids);
            }
            match self.resolve_pos(w) {
                Ok(_) => {},
                Err(e) => {
                    assert(!self@.pos_keys.contains(package@[i as int].pos@));
                    return Err(e);
                },
            }
            proof {
                let m2 = self@;
                assert(pos_labels(package@).contains(w.pos@));
                if !m1.pos_keys.contains(w.pos@) {
                    assert(m2.pos_keys.subrange(0, m1.pos_keys.len() as int) =~= m1.pos_keys);
                    assert(m2.pos_ids.subrange(0, m1.pos_ids.len() as int) =~= m1.pos_ids);
                }
                assert(m2.pos_keys.subrange(0, old(self)@.pos_keys.len() as int) =~= old(self)@.pos_keys);
                assert(m2.pos_ids.subrange(0, old(self)@.pos_ids.len() as int) =~= old(self)@.pos_ids);
                assert(m2.lang_keys == m1.lang_keys);
                assert(m1.pos_keys == m0.pos_keys);
                assert forall|j: int| 0 <= j < i + 1 implies {
                    &&& m2.lang_keys.contains(#[trigger] lang_key(package@[j]))
                    &&& m2.pos_keys.contains(package@[j].pos@)
                } by {
                    assert(cached_upto(m0, package@, i as int));
                    if j < i {
                        assert(m0.lang_keys.contains(lang_key(package@[j])));
                        assert(m0.pos_keys.contains(package@[j].pos@));
                        let a = m0.lang_keys.index_of(lang_key(package@[j]));
                        assert(m1.lang_keys[a] == m0.lang_keys[a]);
                        assert(m2.lang_keys.contains(lang_key(package@[j])));
                        let b = m0.pos_keys.index_of(package@[j].pos@);
                        assert(m1.pos_keys[b] == m0.pos_keys[b]);
                        assert(m2.pos_keys[b] == m1.pos_keys[b]);
                        assert(m2.pos_keys.contains(package@[j].pos@));
                    } else {
                        assert(m2.lang_keys.contains(lang_key(package@[j])));
                        assert(m2.pos_keys.contains(package@[j].pos@));
                    }
                }
                assert(cached_upto(m2, package@, i as int + 1));
            }
            i = i + 1;
        }
        Ok(())
    }

    /// Writes one batch. Lookup rows are resolved first, outside any
    /// transaction; then every entry's word row and form rows are written in
    /// one transaction. A word that already exists for its part of speech is
    /// skipped and counted; any other failure rolls the whole batch back.
    /// When the rollback itself fails, the connection is taken as lost.
    pub fn bulk_insert(&mut self, package: &Vec<Word>) -> (r: Result<BatchReport, DbError>)
        requires
            old(self).wf(),
        ensures
            final(self).wf(),
            final(self).spec_db_time() >= old(self).spec_db_time(),
            lookups_grew(old(self)@, final(self)@, package@),
            final(self)@.submitted == old(self)@.submitted.push(package@),
            match r {
                Ok(rep) => batch_written(old(self)@, final(self)@, package@, rep),
                Err(e) => {
                    &&& batch_not_written(old(self)@, final(self)@, package@)
                    &&& e.spec_kind() == ErrorKind::Lookup ==> {
                        &&& final(self)@.attempts == old(self)@.attempts
                        &&& !cached_upto(final(self)@, package@, package@.len() as int)
                    }
                    &&& e.spec_kind() != ErrorKind::Lookup ==> {
                        &&& e.spec_kind() == ErrorKind::Transaction || e.spec_kind() == ErrorKind::Connection
                        &&& cached_upto(final(self)@, package@, package@.len() as int)
                    }
                },
            },
    {
        let start = store::now();
        proof {
            self.submitted@ = self.submitted@.push(package@);
        }
        let ghost m_in = self@;
        match self.resolve_all(package) {
            Ok(_) => {},
            Err(e) => {
                assert(self@.attempts.subrange(0, old(self)@.attempts.len() as int) =~= old(self)@.attempts);
                return Err(e);
            },
        }
        let ghost m = self@;
        assert(self@.attempts.subrange(0, old(self)@.attempts.len() as int) =~= old(self)@.attempts);
        let tx = match store::begin(&mut self.conn) {
            Ok(t) => t,
            Err(e) => return Err(DbError::Transaction { inner: e, query: BEGIN.to_owned() }),
        };
        let conn = store::in_transaction(&tx);
        let mut words: usize = 0;
        let mut conflicts: usize = 0;
        let ghost mut pending: Seq<Attempt> = seq![];
        let ghost mut pending_forms: Seq<(Seq<char>, Seq<char>)> = seq![];
        let mut i: usize = 0;
        while i < package.len()
            invariant
                self.langs.wf(),
                self.speech_parts.wf(),
                self.langs.keys() == m.lang_keys,
                self.langs.ids() == m.lang_ids,
                self.speech_parts.keys() == m.pos_keys,
                self.speech_parts.ids() == m.pos_ids,
                self.lang_rows@ == m.lang_rows,
                self.pos_rows@ == m.pos_rows,
                self.word_rows@ == m.word_rows,
                self.form_rows@ == m.form_rows,
                self.committed@ == m.committed,
                self.attempts@ == m.attempts,
                self.skipped@ == m.skipped,
                self.submitted@ == m.submitted,
                self.db_time == old(self).db_time,
                m.lang_rows == m.lang_keys,
                m.pos_rows == m.pos_keys,
                lookups_grew(old(self)@, m, package@),
                same_writes(m_in, m),
                m_in.submitted == old(self)@.submitted.push(package@),
                m_in.word_rows == old(self)@.word_rows,
                m_in.form_rows == old(self)@.form_rows,
                m_in.committed == old(self)@.committed,
                m_in.attempts == old(self)@.attempts,
                m_in.skipped == old(self)@.skipped,
                cached_upto(m, package@, package@.len() as int),
                0 <= i <= package@.len(),
                pending.len() == i,
                forall|k: int| 0 <= k < i ==> (#[trigger] pending[k]).0 == row_of(m, package@[k]),
                forall|k: int| 0 <= k < i ==> tolerated(#[trigger] pending[k]),
                words == written_rows(pending).len(),
                conflicts == conflict_count(pending),
                words + conflicts == i,
                pending_forms == batch_form_rows(package@.subrange(0, i as int)),
            decreases package@.len() - i,
        {
            let w = &package[i];
            proof {
                assert(m.lang_keys.contains(lang_key(package@[i as int])));
                self.langs.lemma_wf_lens();
                self.speech_parts.lemma_wf_lens();
            }
            let lang_id = self.langs.get(&w.lang, &w.lang_code).unwrap();
            let pos_id = self.speech_parts.get(&w.pos).unwrap();
            let failure = match store::execute_word(conn, INSERT_WORD, &w.word, pos_id, lang_id) {
                Ok(_) => None,
                Err(e) => Some(e),
            };
            let inserted = failure.is_none();
            let unique = match &failure {
                None => false,
                Some(e) => store::is_unique_violation(e),
            };
            let ghost before = pending;
            proof {
                pending = pending.push((row_of(m, package@[i as int]), inserted, unique));
                assert(pending.drop_last() =~= before);
            }
            match word_outcome(inserted, unique, words, conflicts) {
                Some(counts) => {
                    words = counts.0;
                    conflicts = counts.1;
                },
                None => {
                    let e = failure.unwrap();
                    let ghost tried = pending;
                    let undone = store::rollback(tx);
                    proof {
                        self.attempts@ = self.attempts@ + tried;
                        assert(self@.attempts.subrange(0, old(self)@.attempts.len() as int) =~= old(self)@.attempts);
                        assert(cached_upto(self@, package@, package@.len() as int));
                    }
                    return match undone {
                        Ok(_) => Err(DbError::Transaction { inner: e, query: INSERT_WORD.to_owned() }),
                        Err(lost) => Err(DbError::Connection(lost)),
                    };
                },
            }
            let (written, rows) = write_forms(conn, w);
            match written {
                Ok(_) => {},
                Err(e) => {
                    let ghost tried = pending;
                    let undone = store::rollback(tx);
                    proof {
                        self.attempts@ = self.attempts@ + tried;
                        assert(self@.attempts.subrange(0, old(self)@.attempts.len() as int) =~= old(self)@.attempts);
                        assert(cached_upto(self@, package@, package@.len() as int));
                    }
                    return match undone {
                        Ok(_) => Err(DbError::Transaction { inner: e, query: INSERT_FORM.to_owned() }),
                        Err(lost) => Err(DbError::Connection(lost)),
                    };
                },
            }
            proof {
                assert(package@.subrange(0, i as int + 1).drop_last() =~= package@.subrange(0, i as int));
                pending_forms = pending_forms + rows@;
            }
            i = i + 1;
        }
        assert(package@.subrange(0, i as int) =~= package@);
        let committed = store::commit(tx);
        let spent = store::elapsed_nanos(&start);
        self.db_time = self.db_time.saturating_add(spent);
        let ghost tried = pending;
        proof {
            self.attempts@ = self.attempts@ + tried;
            assert(self.attempts@.subrange(0, old(self)@.attempts.len() as int) =~= old(self)@.attempts);
        }
        match committed {
            Ok(_) => {
                proof {
                    self.word_rows@ = self.word_rows@ + written_rows(tried);
                    self.form_rows@ = self.form_rows@ + pending_forms;
                    self.committed@ = self.committed@.push(package@);
                    self.skipped@ = self.skipped@ + conflicts as nat;
                    assert forall|k: int| 0 <= k < package@.len() implies {
                        &&& (#[trigger] self@.attempts[old(self)@.attempts.len() + k]).0 == row_of(self@, package@[k])
                        &&& tolerated(self@.attempts[old(self)@.attempts.len() + k])
                    } by {
                        assert(self@.attempts[old(self)@.attempts.len() + k] == tried[k]);
                    }
                    assert(self@.attempts.subrange(old(self)@.attempts.len() as int, self@.attempts.len() as int) =~= tried);
                }
                Ok(BatchReport { words, conflicts })
            },
            Err(e) => Err(DbError::Transaction { inner: e, query: COMMIT.to_owned() }),
        }
    }

    /// Writes one entry outside any transaction: its lookup rows, its word
    /// row and its form rows. Returns `false` when the word already existed
    /// for its part of speech (a uniqueness conflict, skipped and counted), in
    /// which case only the form rows are written. Any other failure of the
    /// word insert is an `Insert` error, and no form row is written.
    pub fn insert_entry(&mut self, w: &Word) -> (r: Result<bool, DbError>)
        requires
            old(self).wf(),
        ensures
            final(self).wf(),
            final(self).spec_db_time() >= old(self).spec_db_time(),
            lookups_grew(old(self)@, final(self)@, seq![*w]),
            final(self)@.committed == old(self)@.committed,
            final(self)@.submitted == old(self)@.submitted,
            match r {
                Ok(inserted) => {
                    &&& final(self)@.lang_keys.contains(lang_key(*w))
                    &&& final(self)@.pos_keys.contains(w.pos@)
                    &&& final(self)@.attempts == old(self)@.attempts.push(
                        (row_of(final(self)@, *w), inserted, !inserted),
                    )
                    &&& final(self)@.word_rows == if inserted {
                        old(self)@.word_rows.push(row_of(final(self)@, *w))
                    } else {
                        old(self)@.word_rows
                    }
                    &&& final(self)@.skipped == old(self)@.skipped + if inserted { 0nat } else { 1nat }
                    &&& final(self)@.form_rows == old(self)@.form_rows + form_rows(*w)
                },
                Err(e) => if e.spec_kind() == ErrorKind::Lookup {
                    &&& same_writes(old(self)@, final(self)@)
                    &&& !(final(self)@.lang_keys.contains(lang_key(*w)) && final(self)@.pos_keys.contains(w.pos@))
                } else {
                    let a = final(self)@.attempts.last();
                    &&& e.spec_kind() == ErrorKind::Insert
                    &&& final(self)@.lang_keys.contains(lang_key(*w))
                    &&& final(self)@.pos_keys.contains(w.pos@)
                    &&& final(self)@.attempts.len() == old(self)@.attempts.len() + 1
                    &&& final(self)@.attempts.drop_last() == old(self)@.attempts
                    &&& a.0 == row_of(final(self)@, *w)
                    &&& !tolerated(a) ==> {
                        &&& final(self)@.word_rows == old(self)@.word_rows
                        &&& final(self)@.form_rows == old(self)@.form_rows
                        &&& final(self)@.skipped == old(self)@.skipped
                    }
                    &&& tolerated(a) ==> final(self)@.word_rows == if a.1 {
                        old(self)@.word_rows.push(row_of(final(self)@, *w))
                    } else {
                        old(self)@.word_rows
                    }
                },
            },
    {
        let start = store::now();
        let ghost one = seq![*w];
        let ghost m0 = self@;
        proof {
            assert(one[0] == *w);
            assert(lang_labels(one).contains(lang_key(*w)));
            assert(pos_labels(one).contains(w.pos@));
            lemma_grew_refl(m0, one);
        }
        let lang_id = match self.resolve_lang(w) {
            Ok(id) => id,
            Err(e) => return Err(e),
        };
        let ghost m1 = self@;
        proof {
            assert(m1.lang_keys.subrange(0, m0.lang_keys.len() as int) =~= m0.lang_keys);
            assert(m1.lang_ids.subrange(0, m0.lang_ids.len() as int) =~= m0.lang_ids);
            assert(lookups_grew(m0, m1, one));
        }
        let pos_id = match self.resolve_pos(w) {
            Ok(id) => id,
            Err(e) => return Err(e),
        };
        let ghost m2 = self@;
        proof {
            assert(lang_id == m2.lang_id(lang_key(*w)));
            assert(m2.pos_keys.subrange(0, m0.pos_keys.len() as int) =~= m0.pos_keys);
            assert(m2.pos_ids.subrange(0, m0.pos_ids.len() as int) =~= m0.pos_ids);
            assert(lookups_grew(m0, m2, one));
        }
        let failure = match store::execute_word(&self.conn, INSERT_WORD, &w.word, pos_id, lang_id) {
            Ok(_) => None,
            Err(e) => Some(e),
        };
        let inserted = failure.is_none();
        let unique = match &failure {
            None => false,
            Some(e) => store::is_unique_violation(e),
        };
        proof {
            self.attempts@ = self.attempts@.push((row_of(m2, *w), inserted, unique));
            assert(self.attempts@.drop_last() =~= old(self)@.attempts);
        }
        match word_outcome(inserted, unique, 0, 0) {
            Some(_) => {},
            None => {
                let spent = store::elapsed_nanos(&start);
                self.db_time = self.db_time.saturating_add(spent);
                return Err(DbError::Insert { inner: failure.unwrap(), query: INSERT_WORD.to_owned() });
            },
        }
        proof {
            if inserted {
                self.word_rows@ = self.word_rows@.push(row_of(m2, *w));
            } else {
                self.skipped@ = self.skipped@ + 1;
            }
        }
        let (written, rows) = write_forms(&self.conn, w);
        proof {
            self.form_rows@ = self.form_rows@ + rows@;
        }
        let spent = store::elapsed_nanos(&start);
        self.db_time = self.db_time.saturating_add(spent);
        match written {
            Ok(_) => Ok(inserted),
            Err(e) => Err(DbError::Insert { inner: e, query: INSERT_FORM.to_owned() }),
        }
    }

    /// One step of the persistence worker: a batch is written, and the
    /// closing of the queue ends the worker. A rolled-back batch lets the run
    /// go on; a failed lookup or a lost connection does not.
    pub fn handle(&mut self, event: Inbound) -> (r: Step)
        requires
            old(self).wf(),
        ensures
            final(self).wf(),
            match event {
                Inbound::Closed => {
                    &&& r is Finished
                    &&& final(self)@ == old(self)@
                },
                Inbound::Batch(b) => {
                    &&& lookups_grew(old(self)@, final(self)@, b@)
                    &&& final(self)@.submitted == old(self)@.submitted.push(b@)
                    &&& match r {
                        Step::Committed(rep) => batch_written(old(self)@, final(self)@, b@, rep),
                        Step::RolledBack(e) => {
                            &&& e.spec_kind() == ErrorKind::Transaction
                            &&& batch_not_written(old(self)@, final(self)@, b@)
                        },
                        Step::Failed(e) => {
                            &&& e.spec_kind() == ErrorKind::Lookup || e.spec_kind() == ErrorKind::Connection
                            &&& batch_not_written(old(self)@, final(self)@, b@)
                        },
                        Step::Finished => false,
                    }
                },
            },
    {
        match event {
            Inbound::Closed => Step::Finished,
            Inbound::Batch(b) => match self.bulk_insert(&b) {
                Ok(rep) => Step::Committed(rep),
                Err(e) => {
                    if e.is_fatal() {
                        Step::Failed(e)
                    } else {
                        Step::RolledBack(e)
                    }
                },
            },
        }
    }

    /// Writes a run of batches in order, one transaction each. A batch that
    /// rolls back is reported and the run goes on; a failed lookup or a lost
    /// connection ends it. The conflicts of the committed batches are summed
    /// (saturating).
    pub fn insert_batches(&mut self, batches: &Vec<Vec<Word>>) -> (r: RunReport)
        requires
            old(self).wf(),
        ensures
            final(self).wf(),
            r.committed@.len() <= batches@.len(),
            r.failure is None ==> r.committed@.len() == batches@.len(),
            r.failure matches Some(e) ==> e.spec_kind() != ErrorKind::Transaction && !r.committed@.last(),
            final(self)@.submitted == old(self)@.submitted + batches_view(batches@).subrange(
                0,
                r.committed@.len() as int,
            ),
            final(self)@.committed == old(self)@.committed + kept(
                batches_view(batches@).subrange(0, r.committed@.len() as int),
                r.committed@,
            ),
            final(self)@.skipped >= old(self)@.skipped,
            r.conflicts == capped(final(self)@.skipped - old(self)@.skipped),
    {
        let mut flags: Vec<bool> = Vec::new();
        let mut conflicts: usize = 0;
        let mut i: usize = 0;
        assert(batches_view(batches@).subrange(0, 0) =~= Seq::<Seq<Word>>::empty());
        assert(old(self)@.committed + Seq::<Seq<Word>>::empty() =~= old(self)@.committed);
        assert(old(self)@.submitted + Seq::<Seq<Word>>::empty() =~= old(self)@.submitted);
        while i < batches.len()
            invariant
                self.wf(),
                0 <= i <= batches@.len(),
                flags@.len() == i,
                self@.committed == old(self)@.committed + kept(
                    batches_view(batches@).subrange(0, i as int),
                    flags@,
                ),
                self@.submitted == old(self)@.submitted + batches_view(batches@).subrange(0, i as int),
                self@.skipped >= old(self)@.skipped,
                conflicts == capped(self@.skipped - old(self)@.skipped),
            decreases batches@.len() - i,
        {
            let ghost fl = flags@;
            let ghost done = batches_view(batches@).subrange(0, i as int + 1);
            let ghost sub = self@.submitted;
            proof {
                assert(done.drop_last() =~= batches_view(batches@).subrange(0, i as int));
                assert(done.last() == batches@[i as int]@);
            }
            match self.bulk_insert(&batches[i]) {
                Ok(rep) => {
                    conflicts = conflicts.saturating_add(rep.conflicts);
                    flags.push(true);
                    proof {
                        assert(flags@.drop_last() =~= fl);
                        assert(self@.committed =~= old(self)@.committed + kept(done, flags@));
                        assert(self@.submitted =~= old(self)@.submitted + done);
                    }
                },
                Err(e) => {
                    flags.push(false);
                    proof {
                        assert(flags@.drop_last() =~= fl);
                        assert(!flags@.last());
                        assert(self@.committed =~= old(self)@.committed + kept(done, flags@));
                        assert(self@.submitted =~= old(self)@.submitted + done);
                    }
                    if e.is_fatal() {
                        return RunReport { committed: flags, conflicts, failure: Some(e) };
                    }
                },
            }
            i = i + 1;
        }
        RunReport { committed: flags, conflicts, failure: None }
    }
}

/// Dedup: once a language (name and code) has been resolved, exactly one
/// language row carries it, however many entries held it and however they
/// were split into batches; the same holds of part-of-speech labels. A key
/// never resolved has no row.
pub proof fn lemma_one_row_per_label(db: &Rusqlite, lang: (Seq<char>, Seq<char>), pos: Seq<char>)
    requires
        db.wf(),
    ensures
        db@.lang_keys.contains(lang) ==> exists|k: int|
            0 <= k < db@.lang_rows.len() && #[trigger] db@.lang_rows[k] == lang && forall|j: int|
                0 <= j < db@.lang_rows.len() && #[trigger] db@.lang_rows[j] == lang ==> j == k,
        !db@.lang_keys.contains(lang) ==> forall|j: int|
            0 <= j < db@.lang_rows.len() ==> #[trigger] db@.lang_rows[j] != lang,
        db@.pos_keys.contains(pos) ==> exists|k: int|
            0 <= k < db@.pos_rows.len() && #[trigger] db@.pos_rows[k] == pos && forall|j: int|
                0 <= j < db@.pos_rows.len() && #[trigger] db@.pos_rows[j] == pos ==> j == k,
        !db@.pos_keys.contains(pos) ==> forall|j: int|
            0 <= j < db@.pos_rows.len() ==> #[trigger] db@.pos_rows[j] != pos,
{
    db.lemma_wf();
    let m = db@;
    if m.lang_keys.contains(lang) {
        let k = m.lang_keys.index_of(lang);
        assert(m.lang_rows[k] == lang);
    }
    if m.pos_keys.contains(pos) {
        let k = m.pos_keys.index_of(pos);
        assert(m.pos_rows[k] == pos);
    }
}

/// Duplicate-word tolerance: when the same row is handed to the store twice
/// and the store rejects the second insert as a uniqueness conflict, one row
/// is written and one conflict is counted (which lets the batch go on).
pub proof fn lemma_duplicate_skipped(first: Attempt, second: Attempt)
    requires
        first.0 == second.0,
        first.1,
        !second.1 && second.2,
    ensures
        written_rows(seq![first, second]) == seq![first.0],
        conflict_count(seq![first, second]) == 1,
        tolerated(first) && tolerated(second),
{
    let e = Seq::<Attempt>::empty();
    let one = seq![first];
    let s = seq![first, second];
    assert(one.drop_last() =~= e);
    assert(one.last() == first);
    assert(s.drop_last() =~= one);
    assert(s.last() == second);
    assert(written_rows(e) == Seq::<WordRow>::empty());
    assert(conflict_count(e) == 0);
    assert(written_rows(one) == written_rows(e) + seq![first.0]);
    assert(written_rows(one) =~= seq![first.0]);
    assert(conflict_count(one) == 0);
    assert(written_rows(s) == written_rows(one) + Seq::<WordRow>::empty());
    assert(written_rows(s) =~= seq![first.0]);
    assert(conflict_count(s) == conflict_count(one) + 1);
}

/// Order preservation: when every batch of a run commits, the committed
/// batches are exactly the submitted ones, in submission order, none skipped
/// and none repeated.
pub proof fn lemma_all_committed_in_order(bs: Seq<Seq<Word>>, flags: Seq<bool>)
    requires
        flags.len() == bs.len(),
        forall|i: int| 0 <= i < flags.len() ==> #[trigger] flags[i],
    ensures
        kept(bs, flags) == bs,
    decreases bs.len(),
{
    if bs.len() > 0 {
        let (b, f) = (bs.drop_last(), flags.drop_last());
        assert forall|i: int| 0 <= i < f.len() implies #[trigger] f[i] by {
            assert(f[i] == flags[i]);
        }
        lemma_all_committed_in_order(b, f);
        assert(flags.last() == flags[flags.len() - 1]);
        assert(b.push(bs.last()) =~= bs);
    }
}

/// `x` is one of the batches of `bs` whose flag is set.
pub open spec fn flagged(bs: Seq<Seq<Word>>, flags: Seq<bool>, x: Seq<Word>) -> bool {
    exists|j: int| 0 <= j < bs.len() && flags[j] && bs[j] == x
}

/// Whatever commits, the committed batches are some of the submitted ones,
/// in submission order: never more of them than were submitted.
pub proof fn lemma_kept_in_order(bs: Seq<Seq<Word>>, flags: Seq<bool>)
    requires
        flags.len() == bs.len(),
    ensures
        kept(bs, flags).len() <= bs.len(),
        forall|i: int| 0 <= i < kept(bs, flags).len() ==> flagged(bs, flags, #[trigger] kept(bs, flags)[i]),
    decreases bs.len(),
{
    if bs.len() > 0 {
        let (b, f) = (bs.drop_last(), flags.drop_last());
        lemma_kept_in_order(b, f);
        let k = kept(bs, flags);
        let rest = kept(b, f);
        assert(k == if flags.last() { rest.push(bs.last()) } else { rest });
        assert forall|i: int| 0 <= i < k.len() implies flagged(bs, flags, #[trigger] k[i]) by {
            if i < rest.len() {
                assert(k[i] == rest[i]);
                assert(flagged(b, f, rest[i]));
                let j = choose|j: int| 0 <= j < b.len() && f[j] && b[j] == rest[i];
                assert(b[j] == bs[j] && f[j] == flags[j]);
            } else {
                assert(flags[bs.len() - 1] && bs[bs.len() - 1] == k[i]);
            }
        }
    }
}

} // verus!
