//! The persistence layer: a versioned relational store holding one `files`
//! and one `folders` table, replaced wholesale per root inside one
//! transaction.
//!
//! The store itself is SQLite through rusqlite; what this module verifies
//! is everything around the calls: the parameter vectors handed to each
//! statement, the statement text, and the reconstruction of a scan from
//! the rows that come back.

use vstd::prelude::*;
use crate::{FileEntry, FileEntrySer, FileKey, ScanResult};
use crate::paths::{lex_le, spec_ascii_lower, spec_basename, spec_extension};

verus! {

#[verifier::external_type_specification]
#[verifier::external_body]
pub struct ExConnection(rusqlite::Connection);

#[verifier::external_type_specification]
#[verifier::external_body]
pub struct ExRusqliteError(rusqlite::Error);

/// One SQL statement parameter: the only column kinds the schema uses.
pub enum SqlValue {
    Null,
    Int(i64),
    Text(String),
}

/// `v` is a text parameter holding exactly `s`.
pub open spec fn sv_text(v: SqlValue, s: Seq<char>) -> bool {
    match v {
        SqlValue::Text(t) => t@ == s,
        _ => false,
    }
}

/// `v` is an integer parameter holding exactly `x`.
pub open spec fn sv_int(v: SqlValue, x: int) -> bool {
    match v {
        SqlValue::Int(i) => i == x,
        _ => false,
    }
}

/// First schema step: the two tables and their indexes.
pub const MIGRATION_BASE_TABLES: &'static str = "
CREATE TABLE IF NOT EXISTS files (
    root TEXT NOT NULL,
    path TEXT NOT NULL,
    size INTEGER NOT NULL,
    dev INTEGER NOT NULL,
    ino INTEGER NOT NULL,
    hash TEXT,
    mtime INTEGER
);
CREATE INDEX IF NOT EXISTS idx_files_root_path ON files(root, path);
CREATE INDEX IF NOT EXISTS idx_files_root_size ON files(root, size DESC);
CREATE INDEX IF NOT EXISTS idx_files_dev_ino ON files(dev, ino);
CREATE INDEX IF NOT EXISTS idx_files_hash ON files(hash) WHERE hash IS NOT NULL;

CREATE TABLE IF NOT EXISTS folders (
    root TEXT NOT NULL,
    path TEXT NOT NULL,
    recursive_size INTEGER NOT NULL,
    PRIMARY KEY (root, path)
);
CREATE INDEX IF NOT EXISTS idx_folders_root_size ON folders(root, recursive_size DESC);
";

/// Second schema step: nullable display columns.
pub const MIGRATION_ADD_NAMES_AND_TYPES: &'static str = "
ALTER TABLE files ADD COLUMN name TEXT;
ALTER TABLE files ADD COLUMN type TEXT;
ALTER TABLE folders ADD COLUMN name TEXT;
";

/// Relies on `rusqlite::Connection::open`: opens (creating if absent) the
/// database file at `path`.
#[verifier::external_body]
fn connection_open(path: &str) -> (r: Result<rusqlite::Connection, rusqlite::Error>) {
    rusqlite::Connection::open(path)
}

/// Relies on `rusqlite::Connection::open_in_memory`: opens a fresh store
/// that lives only as long as the connection.
#[verifier::external_body]
fn connection_open_in_memory() -> (r: Result<rusqlite::Connection, rusqlite::Error>) {
    rusqlite::Connection::open_in_memory()
}

/// Relies on rusqlite_migration's `Migrations::to_latest`: applies the two
/// schema steps forward-only, exactly once each, tracked by the user
/// version marker. A migration failure is reported as a rusqlite error, as
/// `ExecuteReturnedResults` for want of a richer mapping.
#[verifier::external_body]
fn apply_migrations(conn: &mut rusqlite::Connection, first: &str, second: &str) -> (r: Result<
    (),
    rusqlite::Error,
>) {
    let steps = vec![rusqlite_migration::M::up(first), rusqlite_migration::M::up(second)];
    rusqlite_migration::Migrations::new(steps)
        .to_latest(conn)
        .map_err(|_e| rusqlite::Error::ExecuteReturnedResults)
}

/// Relies on `rusqlite::Connection::execute` and `params_from_iter`: runs
/// one statement with the given parameters, each bound as its SQL kind.
#[verifier::external_body]
fn db_execute(conn: &rusqlite::Connection, sql: &str, params: &Vec<SqlValue>) -> (r: Result<
    usize,
    rusqlite::Error,
>) {
    let vals: Vec<rusqlite::types::Value> = params
        .iter()
        .map(|p| match p {
            SqlValue::Null => rusqlite::types::Value::Null,
            SqlValue::Int(i) => rusqlite::types::Value::Integer(*i),
            SqlValue::Text(t) => rusqlite::types::Value::Text(t.clone()),
        })
        .collect();
    conn.execute(sql, rusqlite::params_from_iter(vals))
}

/// Relies on `rusqlite::Connection::execute_batch`: runs a statement list.
#[verifier::external_body]
fn db_execute_batch(conn: &rusqlite::Connection, sql: &str) -> (r: Result<(), rusqlite::Error>) {
    conn.execute_batch(sql)
}

/// The file rows come back ordered by path, ascending.
pub open spec fn file_rows_sorted(rows: Seq<(String, i64, i64, i64)>) -> bool {
    forall|i: int, j: int| 0 <= i < j < rows.len() ==> lex_le(rows[i].0@, rows[j].0@)
}

/// Relies on rusqlite's `prepare`/`query_map`, and on SQLite's `ORDER BY
/// ... COLLATE BINARY`, which orders UTF-8 text by code point whatever
/// collation the column was declared with: the file rows of `root` as
/// `(path, size, dev, ino)`, path ascending. A row whose path is not text
/// fails the row mapping, so `Ok` rows are all text.
#[verifier::external_body]
pub(crate) fn db_query_file_rows(conn: &rusqlite::Connection, root: &str) -> (r: Result<
    Vec<(String, i64, i64, i64)>,
    rusqlite::Error,
>)
    ensures
        r matches Ok(rows) ==> file_rows_sorted(rows@),
{
    let mut stmt = conn.prepare(
        "SELECT path, size, dev, ino FROM files WHERE root = ?1 ORDER BY path COLLATE BINARY",
    )?;
    let rows = stmt.query_map([root], |row| {
        Ok((row.get(0)?, row.get(1)?, row.get(2)?, row.get(3)?))
    })?;
    rows.collect()
}

/// Relies on rusqlite's `prepare`/`query_map`, and on SQL `GROUP BY`: the
/// folder rows of `root` as `(path, recursive_size)`, one row per group,
/// so no path string is repeated whatever keys or collations the table
/// was created with.
#[verifier::external_body]
fn db_query_folder_rows(conn: &rusqlite::Connection, root: &str) -> (r: Result<
    Vec<(String, i64)>,
    rusqlite::Error,
>)
    ensures
        r matches Ok(rows) ==> forall|i: int, j: int|
            0 <= i < j < rows@.len() ==> rows@[i].0@ != rows@[j].0@,
{
    let mut stmt = conn.prepare(
        "SELECT path, recursive_size FROM folders WHERE root = ?1 GROUP BY path",
    )?;
    let rows = stmt.query_map([root], |row| Ok((row.get(0)?, row.get(1)?)))?;
    rows.collect()
}

/// Relies on rusqlite's `prepare`/`query_map`, on SQL `DISTINCT` (distinct
/// under any collation is distinct as strings), and on `ORDER BY ...
/// COLLATE BINARY`, code-point order whatever the column declares: every
/// root that has a folder row, each once, ascending.
#[verifier::external_body]
fn db_query_roots(conn: &rusqlite::Connection) -> (r: Result<Vec<String>, rusqlite::Error>)
    ensures
        r matches Ok(roots) ==> (forall|i: int, j: int|
            0 <= i < j < roots@.len() ==> lex_le(roots@[i]@, roots@[j]@) && roots@[i]@
                != roots@[j]@),
{
    let mut stmt = conn.prepare(
        "SELECT DISTINCT root FROM folders ORDER BY root COLLATE BINARY",
    )?;
    let rows = stmt.query_map([], |row| row.get(0))?;
    rows.collect()
}

/// Opens the store at `path` and brings its schema up to date.
pub fn open_db(path: &str) -> (r: Result<rusqlite::Connection, rusqlite::Error>) {
    let mut conn = match connection_open(path) {
        Ok(c) => c,
        Err(e) => {
            return Err(e);
        },
    };
    match apply_migrations(&mut conn, MIGRATION_BASE_TABLES, MIGRATION_ADD_NAMES_AND_TYPES) {
        Ok(_) => Ok(conn),
        Err(e) => Err(e),
    }
}

/// Opens a fresh in-memory store and brings its schema up to date.
pub fn open_db_in_memory() -> (r: Result<rusqlite::Connection, rusqlite::Error>) {
    let mut conn = match connection_open_in_memory() {
        Ok(c) => c,
        Err(e) => {
            return Err(e);
        },
    };
    match apply_migrations(&mut conn, MIGRATION_BASE_TABLES, MIGRATION_ADD_NAMES_AND_TYPES) {
        Ok(_) => Ok(conn),
        Err(e) => Err(e),
    }
}

/// Creates the base tables directly, without the migration marker.
pub fn create_tables(conn: &rusqlite::Connection) -> (r: Result<(), rusqlite::Error>) {
    db_execute_batch(conn, MIGRATION_BASE_TABLES)
}

pub const FILES_INSERT_PREFIX: &'static str =
    "INSERT INTO files (root, path, size, dev, ino, hash, mtime, name, type) VALUES ";

pub const FILES_ROW_PLACEHOLDER: &'static str = "(?, ?, ?, ?, ?, ?, ?, ?, ?)";

pub const FOLDERS_INSERT_PREFIX: &'static str =
    "INSERT INTO folders (root, path, recursive_size, name) VALUES ";

pub const FOLDERS_ROW_PLACEHOLDER: &'static str = "(?, ?, ?, ?)";

/// How many rows one insert statement carries at most.
pub const BATCH_SIZE: usize = 200;

/// `row` repeated `n` times with `sep` between repetitions.
pub open spec fn repeat_rows(row: Seq<char>, sep: Seq<char>, n: nat) -> Seq<char>
    decreases n,
{
    if n <= 1 {
        row
    } else {
        repeat_rows(row, sep, (n - 1) as nat) + sep + row
    }
}

/// One insert statement for `rows` rows: the prefix followed by the row
/// placeholder group repeated once per row.
pub fn batch_insert_sql(prefix: &str, row: &str, rows: usize) -> (s: String)
    requires
        rows >= 1,
    ensures
        s@ == prefix@ + repeat_rows(row@, ", "@, rows as nat),
{
    let mut s = prefix.to_owned();
    s.append(row);
    let mut k: usize = 1;
    while k < rows
        invariant
            1 <= k <= rows,
            s@ == prefix@ + repeat_rows(row@, ", "@, k as nat),
        decreases rows - k,
    {
        s.append(", ");
        s.append(row);
        k = k + 1;
    }
    s
}

/// The nine parameters of one `files` row stand at offset `9 * t`: root,
/// path, size, device, inode, null hash, null mtime, basename, lowercased
/// extension.
pub open spec fn file_row_ok(r: Seq<SqlValue>, t: int, root: Seq<char>, e: FileEntry) -> bool {
    &&& sv_text(r[9 * t], root)
    &&& sv_text(r[9 * t + 1], e.0@)
    &&& sv_int(r[9 * t + 2], e.1 as i64 as int)
    &&& sv_int(r[9 * t + 3], e.2.dev as i64 as int)
    &&& sv_int(r[9 * t + 4], e.2.ino as i64 as int)
    &&& r[9 * t + 5] is Null
    &&& r[9 * t + 6] is Null
    &&& match spec_basename(e.0@) {
        Some(b) => sv_text(r[9 * t + 7], b),
        None => r[9 * t + 7] is Null,
    }
    &&& match spec_extension(e.0@) {
        Some(x) => sv_text(r[9 * t + 8], spec_ascii_lower(x)),
        None => r[9 * t + 8] is Null,
    }
}

/// The parameter vector for the `files` rows `start..end`.
pub fn file_insert_params(root: &str, files: &Vec<FileEntry>, start: usize, end: usize) -> (r:
    Vec<SqlValue>)
    requires
        start <= end <= files@.len(),
    ensures
        r@.len() == 9 * (end - start),
        forall|t: int|
            0 <= t < end - start ==> #[trigger] file_row_ok(r@, t, root@, files@[start + t]),
{
    let mut r: Vec<SqlValue> = Vec::new();
    let mut i: usize = start;
    while i < end
        invariant
            start <= i <= end <= files@.len(),
            r@.len() == 9 * (i - start),
            forall|t: int|
                0 <= t < i - start ==> #[trigger] file_row_ok(r@, t, root@, files@[start + t]),
        decreases end - i,
    {
        let ghost r0 = r@;
        let e = &files[i];
        r.push(SqlValue::Text(root.to_owned()));
        r.push(SqlValue::Text(e.0.clone()));
        r.push(SqlValue::Int(#[verifier::truncate] (e.1 as i64)));
        r.push(SqlValue::Int(#[verifier::truncate] (e.2.dev as i64)));
        r.push(SqlValue::Int(#[verifier::truncate] (e.2.ino as i64)));
        r.push(SqlValue::Null);
        r.push(SqlValue::Null);
        match crate::paths::basename_of(e.0.as_str()) {
            Some(b) => r.push(SqlValue::Text(b)),
            None => r.push(SqlValue::Null),
        }
        match crate::paths::extension_of(e.0.as_str()) {
            Some(x) => r.push(SqlValue::Text(crate::paths::ascii_lower(x.as_str()))),
            None => r.push(SqlValue::Null),
        }
        proof {
            assert forall|t: int|
                0 <= t < i + 1 - start implies #[trigger] file_row_ok(r@, t, root@, files@[start + t]) by {
                if t < i - start {
                    assert(file_row_ok(r0, t, root@, files@[start + t]));
                    assert forall|c: int| 0 <= c < 9 implies r@[#[trigger] (9 * t + c)] == r0[9 * t + c] by {
                        assert(9 * t + c < r0.len());
                    }
                }
            }
        }
        i = i + 1;
    }
    r
}

/// The four parameters of one `folders` row stand at offset `4 * t`:
/// root, folder path, recursive size, basename.
pub open spec fn folder_row_ok(
    r: Seq<SqlValue>,
    t: int,
    root: Seq<char>,
    p: (String, u64),
) -> bool {
    &&& sv_text(r[4 * t], root)
    &&& sv_text(r[4 * t + 1], p.0@)
    &&& sv_int(r[4 * t + 2], p.1 as i64 as int)
    &&& match spec_basename(p.0@) {
        Some(b) => sv_text(r[4 * t + 3], b),
        None => r[4 * t + 3] is Null,
    }
}

/// The parameter vector for the `folders` rows `start..end`.
pub fn folder_insert_params(
    root: &str,
    folder_sizes: &Vec<(String, u64)>,
    start: usize,
    end: usize,
) -> (r: Vec<SqlValue>)
    requires
        start <= end <= folder_sizes@.len(),
    ensures
        r@.len() == 4 * (end - start),
        forall|t: int|
            0 <= t < end - start ==> #[trigger] folder_row_ok(r@, t, root@, folder_sizes@[start + t]),
{
    let mut r: Vec<SqlValue> = Vec::new();
    let mut i: usize = start;
    while i < end
        invariant
            start <= i <= end <= folder_sizes@.len(),
            r@.len() == 4 * (i - start),
            forall|t: int|
                0 <= t < i - start ==> #[trigger] folder_row_ok(r@, t, root@, folder_sizes@[start + t]),
        decreases end - i,
    {
        let ghost r0 = r@;
        r.push(SqlValue::Text(root.to_owned()));
        r.push(SqlValue::Text(folder_sizes[i].0.clone()));
        r.push(SqlValue::Int(#[verifier::truncate] (folder_sizes[i].1 as i64)));
        match crate::paths::basename_of(folder_sizes[i].0.as_str()) {
            Some(b) => r.push(SqlValue::Text(b)),
            None => r.push(SqlValue::Null),
        }
        proof {
            assert forall|t: int|
                0 <= t < i + 1 - start implies #[trigger] folder_row_ok(r@, t, root@, folder_sizes@[start
                + t]) by {
                if t < i - start {
                    assert(folder_row_ok(r0, t, root@, folder_sizes@[start + t]));
                    assert forall|c: int| 0 <= c < 4 implies r@[#[trigger] (4 * t + c)] == r0[4 * t + c] by {
                        assert(4 * t + c < r0.len());
                    }
                }
            }
        }
        i = i + 1;
    }
    r
}

fn write_scan_body(
    conn: &rusqlite::Connection,
    root: &str,
    files: &Vec<FileEntry>,
    folder_sizes: &Vec<(String, u64)>,
) -> (r: Result<(), rusqlite::Error>) {
    let mut root_param: Vec<SqlValue> = Vec::new();
    root_param.push(SqlValue::Text(root.to_owned()));
    db_execute(conn, "DELETE FROM files WHERE root = ?1", &root_param)?;
    db_execute(conn, "DELETE FROM folders WHERE root = ?1", &root_param)?;
    let n = files.len();
    let mut start: usize = 0;
    while start < n
        invariant
            0 <= start <= n,
            n == files@.len(),
        decreases n - start,
    {
        let end = if n - start > BATCH_SIZE {
            start + BATCH_SIZE
        } else {
            n
        };
        let sql = batch_insert_sql(FILES_INSERT_PREFIX, FILES_ROW_PLACEHOLDER, end - start);
        let params = file_insert_params(root, files, start, end);
        db_execute(conn, sql.as_str(), &params)?;
        start = end;
    }
    let m = folder_sizes.len();
    let mut fstart: usize = 0;
    while fstart < m
        invariant
            0 <= fstart <= m,
            m == folder_sizes@.len(),
        decreases m - fstart,
    {
        let fend = if m - fstart > BATCH_SIZE {
            fstart + BATCH_SIZE
        } else {
            m
        };
        let sql = batch_insert_sql(FOLDERS_INSERT_PREFIX, FOLDERS_ROW_PLACEHOLDER, fend - fstart);
        let params = folder_insert_params(root, folder_sizes, fstart, fend);
        db_execute(conn, sql.as_str(), &params)?;
        fstart = fend;
    }
    Ok(())
}

/// Replaces the cached scan of `root` with the given file list and folder
/// map, atomically: the deletes and the chunked inserts run inside one
/// transaction, so a failure leaves the prior rows untouched.
pub fn write_scan(
    conn: &rusqlite::Connection,
    root: &str,
    files: &Vec<FileEntry>,
    folder_sizes: &Vec<(String, u64)>,
) -> (r: Result<(), rusqlite::Error>) {
    let empty: Vec<SqlValue> = Vec::new();
    match db_execute(conn, "BEGIN", &empty) {
        Ok(_) => {},
        Err(e) => {
            return Err(e);
        },
    }
    match write_scan_body(conn, root, files, folder_sizes) {
        Ok(_) => {
            match db_execute(conn, "COMMIT", &empty) {
                Ok(_) => Ok(()),
                Err(e) => {
                    let _ = db_execute(conn, "ROLLBACK", &empty);
                    Err(e)
                },
            }
        },
        Err(e) => {
            let _ = db_execute(conn, "ROLLBACK", &empty);
            Err(e)
        },
    }
}

/// The records are ordered by path, ascending.
pub open spec fn ser_sorted_by_path(s: Seq<FileEntrySer>) -> bool {
    forall|i: int, j: int| 0 <= i < j < s.len() ==> lex_le(s[i].path@, s[j].path@)
}

/// Carries file rows over into records, in order, sizes and key halves
/// read back from their signed storage form.
pub fn file_rows_to_entries(rows: &Vec<(String, i64, i64, i64)>) -> (r: Vec<FileEntrySer>)
    ensures
        r@.len() == rows@.len(),
        forall|t: int|
            0 <= t < rows@.len() ==> (#[trigger] r@[t]).path@ == rows@[t].0@ && r@[t].size
                == rows@[t].1 as u64 && r@[t].file_key.dev == rows@[t].2 as u64
                && r@[t].file_key.ino == rows@[t].3 as u64,
{
    let n = rows.len();
    let mut r: Vec<FileEntrySer> = Vec::new();
    let mut i: usize = 0;
    while i < n
        invariant
            n == rows@.len(),
            0 <= i <= n,
            r@.len() == i,
            forall|t: int|
                0 <= t < i ==> (#[trigger] r@[t]).path@ == rows@[t].0@ && r@[t].size == rows@[t].1
                    as u64 && r@[t].file_key.dev == rows@[t].2 as u64 && r@[t].file_key.ino
                    == rows@[t].3 as u64,
        decreases n - i,
    {
        let row = &rows[i];
        r.push(
            FileEntrySer {
                path: row.0.clone(),
                size: #[verifier::truncate] (row.1 as u64),
                file_key: FileKey {
                    dev: #[verifier::truncate] (row.2 as u64),
                    ino: #[verifier::truncate] (row.3 as u64),
                },
            },
        );
        i = i + 1;
    }
    r
}

/// Rebuilds a scan outcome from the rows the store handed back: `None`
/// when `root` has no file rows, otherwise every row carried over in
/// order, sizes and key halves read back from their signed storage form.
pub fn scan_result_from_rows(
    root: &str,
    file_rows: &Vec<(String, i64, i64, i64)>,
    folder_rows: &Vec<(String, i64)>,
) -> (r: Option<ScanResult>)
    ensures
        (r is None) <==> file_rows@.len() == 0,
        r matches Some(sr) ==> {
            &&& sr.root@ == root@
            &&& sr.files@.len() == file_rows@.len()
            &&& forall|i: int|
                0 <= i < file_rows@.len() ==> (#[trigger] sr.files@[i]).path@ == file_rows@[i].0@
                    && sr.files@[i].size == file_rows@[i].1 as u64 && sr.files@[i].file_key.dev
                    == file_rows@[i].2 as u64 && sr.files@[i].file_key.ino == file_rows@[i].3
                    as u64
            &&& sr.folder_sizes@.len() == folder_rows@.len()
            &&& forall|i: int|
                0 <= i < folder_rows@.len() ==> (#[trigger] sr.folder_sizes@[i]).0@
                    == folder_rows@[i].0@ && sr.folder_sizes@[i].1 == folder_rows@[i].1 as u64
        },
{
    if file_rows.len() == 0 {
        return None;
    }
    let files = file_rows_to_entries(file_rows);
    let m = folder_rows.len();
    let mut sizes: Vec<(String, u64)> = Vec::new();
    let mut j: usize = 0;
    while j < m
        invariant
            m == folder_rows@.len(),
            0 <= j <= m,
            sizes@.len() == j,
            forall|t: int|
                0 <= t < j ==> (#[trigger] sizes@[t]).0@ == folder_rows@[t].0@ && sizes@[t].1
                    == folder_rows@[t].1 as u64,
        decreases m - j,
    {
        let row = &folder_rows[j];
        sizes.push((row.0.clone(), #[verifier::truncate] (row.1 as u64)));
        j = j + 1;
    }
    Some(ScanResult { root: root.to_owned(), files, folder_sizes: sizes })
}

/// Reloads the cached scan of `root`: `None` when the store holds no file
/// rows for it, otherwise the records ordered by path with a well-formed
/// folder map.
pub fn get_scan_result(conn: &rusqlite::Connection, root: &str) -> (r: Result<
    Option<ScanResult>,
    rusqlite::Error,
>)
    ensures
        r matches Ok(Some(sr)) ==> sr.root@ == root@ && ser_sorted_by_path(sr.files@)
            && crate::sizes::al_wf(sr.folder_sizes@),
{
    let file_rows = match db_query_file_rows(conn, root) {
        Ok(rows) => rows,
        Err(e) => {
            return Err(e);
        },
    };
    let folder_rows = match db_query_folder_rows(conn, root) {
        Ok(rows) => rows,
        Err(e) => {
            return Err(e);
        },
    };
    let r = scan_result_from_rows(root, &file_rows, &folder_rows);
    proof {
        if r is Some {
            let sr = r.unwrap();
            assert forall|i: int, j: int|
                0 <= i < j < sr.files@.len() implies lex_le(sr.files@[i].path@, sr.files@[j].path@) by {
                assert(lex_le(file_rows@[i].0@, file_rows@[j].0@));
            }
            assert forall|i: int, j: int|
                0 <= i < j < sr.folder_sizes@.len() implies sr.folder_sizes@[i].0@
                != sr.folder_sizes@[j].0@ by {
                assert(folder_rows@[i].0@ != folder_rows@[j].0@);
            }
        }
    }
    Ok(r)
}

/// Every root with at least one cached folder row, ascending, no repeats.
pub fn list_roots(conn: &rusqlite::Connection) -> (r: Result<Vec<String>, rusqlite::Error>)
    ensures
        r matches Ok(roots) ==> (forall|i: int, j: int|
            0 <= i < j < roots@.len() ==> lex_le(roots@[i]@, roots@[j]@) && roots@[i]@
                != roots@[j]@),
{
    db_query_roots(conn)
}

} // verus!
