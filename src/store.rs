//! The SQLite calls the importer relies on, each behind a small trusted item.
//!
//! What a statement does depends on what the database already holds, so these
//! items promise nothing about their outcome: the verified code around them
//! states what holds whichever way each call goes.

use vstd::prelude::*;




verus! {

#[verifier::external_type_specification]
#[verifier::external_body]
pub struct ExConnection(rusqlite::Connection);

#[verifier::external_type_specification]
#[verifier::external_body]
pub struct ExTransaction<'conn>(rusqlite::Transaction<'conn>);

#[verifier::external_type_specification]
#[verifier::external_body]
pub struct ExSqlError(rusqlite::Error);

#[verifier::external_type_specification]
#[verifier::external_body]
pub struct ExInstant(std::time::Instant);

/// Relies on `rusqlite::Connection::open`: opens (or creates) the database file.
#[verifier::external_body]
pub(crate) fn open(path: &str) -> (r: Result<rusqlite::Connection, rusqlite::Error>) {
    rusqlite::Connection::open(path)
}

/// Relies on `rusqlite::Connection::execute_batch`: runs each statement of `sql`.
#[verifier::external_body]
pub(crate) fn execute_batch(conn: &rusqlite::Connection, sql: &str) -> (r: Result<(), rusqlite::Error>) {
    conn.execute_batch(sql)
}

/// Relies on `rusqlite::Connection::execute`: runs one statement whose
/// parameters are all text, bound in order.
#[verifier::external_body]
pub(crate) fn execute_text(conn: &rusqlite::Connection, sql: &str, params: &Vec<String>) -> (r: Result<
    usize,
    rusqlite::Error,
>) {
    conn.execute(sql, rusqlite::params_from_iter(params.iter()))
}

/// Relies on `rusqlite::Connection::last_insert_rowid`: the rowid of the most
/// recent successful insert on this connection.
#[verifier::external_body]
pub(crate) fn last_insert_rowid(conn: &rusqlite::Connection) -> (r: i64) {
    conn.last_insert_rowid()
}

/// Relies on `rusqlite::Connection::transaction`: begins a deferred
/// transaction, rolled back when dropped unless committed.
#[verifier::external_body]
pub(crate) fn begin(conn: &mut rusqlite::Connection) -> (r: Result<rusqlite::Transaction<'_>, rusqlite::Error>) {
    conn.transaction()
}

/// Relies on `rusqlite::Transaction::commit`.
#[verifier::external_body]
pub(crate) fn commit(tx: rusqlite::Transaction<'_>) -> (r: Result<(), rusqlite::Error>) {
    tx.commit()
}

/// Relies on `rusqlite::Transaction::rollback`.
#[verifier::external_body]
pub(crate) fn rollback(tx: rusqlite::Transaction<'_>) -> (r: Result<(), rusqlite::Error>) {
    tx.rollback()
}

/// Relies on `Deref<Target = Connection>` for `rusqlite::Transaction`:
/// statements run on it belong to the transaction.
#[verifier::external_body]
pub(crate) fn in_transaction<'a>(tx: &'a rusqlite::Transaction<'_>) -> (r: &'a rusqlite::Connection) {
    tx
}

/// Relies on `rusqlite::Connection::prepare_cached` and
/// `rusqlite::CachedStatement::execute`: runs the word insert, which binds
/// one text and two integers, through the connection's statement cache.
#[verifier::external_body]
pub(crate) fn execute_word(conn: &rusqlite::Connection, sql: &str, word: &String, pos_id: i64, lang_id: i64) -> (r:
    Result<usize, rusqlite::Error>) {
    conn.prepare_cached(sql)?.execute((word, pos_id, lang_id))
}

/// Relies on `rusqlite::Connection::prepare_cached` and
/// `rusqlite::CachedStatement::execute`: runs a statement with two text
/// parameters through the connection's statement cache.
#[verifier::external_body]
pub(crate) fn execute_pair(conn: &rusqlite::Connection, sql: &str, a: &String, b: &String) -> (r:
    Result<usize, rusqlite::Error>) {
    conn.prepare_cached(sql)?.execute((a, b))
}

/// Relies on `rusqlite::Error::sqlite_extended_error_code`: tells whether the
/// failure is SQLite's unique-constraint violation.
#[verifier::external_body]
pub(crate) fn is_unique_violation(e: &rusqlite::Error) -> (r: bool) {
    e.sqlite_extended_error_code() == Some(rusqlite::ffi::SQLITE_CONSTRAINT_UNIQUE)
}

/// Relies on `std::time::Instant::now`.
#[verifier::external_body]
pub(crate) fn now() -> (r: std::time::Instant) {
    std::time::Instant::now()
}

/// Relies on `std::time::Instant::elapsed`, read in nanoseconds.
#[verifier::external_body]
pub(crate) fn elapsed_nanos(start: &std::time::Instant) -> (r: u128) {
    start.elapsed().as_nanos()
}

} // verus!
