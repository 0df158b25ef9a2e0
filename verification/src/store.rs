//! The persistent schedule store.
//!
//! Schedules live in one SQLite table: `id integer primary key`, text
//! columns `user`, `cron`, `url`, with `unique (user, cron, url)`. The
//! store is modelled as the sequence of its rows in insertion order; each
//! SQLite call stands behind a trusted wrapper whose contract says what the
//! call does to that sequence. Validation, duplicate handling and the
//! defensive filtering of corrupt rows are verified on top of the wrappers.

use crate::schedule::cron_expr_ok;
use crate::schedule::cron_ok;
use crate::schedule::url_ok;
use crate::schedule::url_parse_ok;
use crate::schedule::Schedule;
use crate::schedule::ValidationError;
use vstd::prelude::*;
use vstd::string::*;

verus! {

#[verifier::external_type_specification]
#[verifier::external_body]
pub struct ExConnection(rusqlite::Connection);

/// The model of one stored row.
pub struct RowModel {
    pub id: u32,
    pub user: Seq<char>,
    pub cron: Seq<char>,
    pub url: Seq<char>,
}

/// One row as handed out of the database.
pub struct StoredRow {
    pub id: u32,
    pub user: String,
    pub cron: String,
    pub url: String,
}

impl View for StoredRow {
    type V = RowModel;

    open spec fn view(&self) -> RowModel {
        RowModel { id: self.id, user: self.user@, cron: self.cron@, url: self.url@ }
    }
}

/// Whether a row holds the given triple.
pub open spec fn row_matches(r: RowModel, user: Seq<char>, cron: Seq<char>, url: Seq<char>) -> bool {
    r.user == user && r.cron == cron && r.url == url
}

/// Whether some stored row holds the given triple.
pub open spec fn contains_triple(
    rows: Seq<RowModel>,
    user: Seq<char>,
    cron: Seq<char>,
    url: Seq<char>,
) -> bool {
    exists|i: int| 0 <= i < rows.len() && row_matches(rows[i], user, cron, url)
}

/// How many stored rows hold the given triple.
pub open spec fn count_triple(
    rows: Seq<RowModel>,
    user: Seq<char>,
    cron: Seq<char>,
    url: Seq<char>,
) -> nat {
    rows.filter(|r: RowModel| row_matches(r, user, cron, url)).len()
}

/// The store's invariant, kept by the table's primary key and unique
/// constraint: no two rows share an id, and no two rows hold the same
/// triple.
pub open spec fn wf_rows(rows: Seq<RowModel>) -> bool {
    forall|i: int, j: int|
        0 <= i < j < rows.len() ==> rows[i].id != rows[j].id && !(rows[i].user == rows[j].user
            && rows[i].cron == rows[j].cron && rows[i].url == rows[j].url)
}

/// Why a store operation failed.
#[derive(Debug)]
pub enum StoreError {
    /// The schedule was refused by validation; nothing was stored.
    Invalid(ValidationError),
    /// The backing file could not be opened, read or written.
    Storage(String),
}

/// The schedule store, backed by one SQLite database file. The model is
/// the sequence of stored rows in insertion order; what rows a freshly
/// opened file already holds is unknown, but the table's primary key and
/// unique constraint keep ids and triples distinct, and row ids are taken
/// to fit in 32 bits, as every id this library writes does.
pub struct Database {
    conn: rusqlite::Connection,
    rows: Ghost<Seq<RowModel>>,
}

impl View for Database {
    type V = Seq<RowModel>;

    closed spec fn view(&self) -> Seq<RowModel> {
        self.rows@
    }
}

impl Database {
    /// Relies on `rusqlite::Connection::open` and `Connection::execute`:
    /// opens the database file at `path`, creating file and schema when
    /// absent, and creates the `Schedule` table if it does not exist.
    #[verifier::external_body]
    fn open_conn(path: &str) -> (r: Result<rusqlite::Connection, String>) {
        let conn = rusqlite::Connection::open(path).map_err(|e| e.to_string())?;
        conn.execute(
            "create table if not exists Schedule (
            id integer primary key,
            user text not null,
            cron text not null,
            url text not null,
            unique (user, cron, url)
            )",
            [],
        ).map_err(|e| e.to_string())?;
        Ok(conn)
    }

    /// Relies on `Connection::execute` with an INSERT: adds the triple as a
    /// new row unless the table's unique constraint refuses it as already
    /// present. SQLite assigns the new row an id greater than every id in
    /// the table, so the id is fresh and the row goes to the end of the
    /// model's insertion order.
    #[verifier::external_body]
    fn insert_row(&mut self, user: &str, cron: &str, url: &str) -> (r: Result<bool, String>)
        ensures
            r matches Ok(true) ==> ({
                &&& !contains_triple(old(self)@, user@, cron@, url@)
                &&& final(self)@ == old(self)@.push(final(self)@.last())
                &&& row_matches(final(self)@.last(), user@, cron@, url@)
                &&& forall|j: int|
                    0 <= j < old(self)@.len() ==> old(self)@[j].id != final(self)@.last().id
            }),
            r matches Ok(false) ==> contains_triple(old(self)@, user@, cron@, url@)
                && final(self)@ == old(self)@,
            r matches Err(_) ==> final(self)@ == old(self)@,
    {
        let result = self.conn.execute(
            "INSERT INTO Schedule (user, cron, url) VALUES (?1, ?2, ?3)",
            (user, cron, url),
        );
        match result {
            Ok(_) => Ok(true),
            Err(rusqlite::Error::SqliteFailure(e, _))
                if e.code == rusqlite::ErrorCode::ConstraintViolation => Ok(false),
            Err(e) => Err(e.to_string()),
        }
    }

    /// Relies on `Connection::execute` with a DELETE by primary key:
    /// removes the row with that id; an absent id removes nothing, which is
    /// not an error.
    #[verifier::external_body]
    fn delete_row(&mut self, id: u32) -> (r: Result<(), String>)
        ensures
            r is Ok ==> final(self)@ == old(self)@.filter(|row: RowModel| row.id != id),
            r is Err ==> final(self)@ == old(self)@,
    {
        match self.conn.execute("DELETE FROM Schedule WHERE ID = ?1", (id,)) {
            Ok(_) => Ok(()),
            Err(e) => Err(e.to_string()),
        }
    }

    /// Relies on `Connection::prepare` and `Statement::query_map` with a
    /// SELECT of every row ordered by id: returns exactly the stored rows.
    /// SQLite assigns ids in increasing order, so id order is the model's
    /// insertion order.
    #[verifier::external_body]
    fn select_rows(&self) -> (r: Result<Vec<StoredRow>, String>)
        ensures
            r matches Ok(v) ==> v@.map_values(|row: StoredRow| row@) == self@,
    {
        let mut stmt = self
            .conn
            .prepare("SELECT id, user, cron, url FROM Schedule ORDER BY id")
            .map_err(|e| e.to_string())?;
        let rows = stmt
            .query_map([], |row| {
                Ok(StoredRow { id: row.get(0)?, user: row.get(1)?, cron: row.get(2)?, url: row.get(3)? })
            })
            .map_err(|e| e.to_string())?;
        let mut out: Vec<StoredRow> = Vec::new();
        for row in rows {
            out.push(row.map_err(|e| e.to_string())?);
        }
        Ok(out)
    }

    /// Opens, creating file and schema when absent, the store at the
    /// default path.
    pub fn open() -> (r: Result<Database, StoreError>)
        ensures
            r matches Ok(db) ==> wf_rows(db@),
    {
        Database::open_path("/usr/share/keysync/schedule.db")
    }

    /// Opens, creating file and schema when absent, the store backed by the
    /// file at `path`. The file's directory must already exist. What rows
    /// the file already holds is unknown: the model starts as an unknown
    /// well-formed row sequence, and every operation's contract says how it
    /// moves from there.
    pub fn open_path(path: &str) -> (r: Result<Database, StoreError>)
        ensures
            r matches Ok(db) ==> wf_rows(db@),
    {
        match Database::open_conn(path) {
            Ok(conn) => {
                proof {
                    assert(wf_rows(Seq::<RowModel>::empty()));
                }
                let ghost rows = choose|rs: Seq<RowModel>| wf_rows(rs);
                Ok(Database { conn, rows: Ghost(rows) })
            },
            Err(m) => Err(StoreError::Storage(m)),
        }
    }

    /// Validates and stores a schedule. Returns `Ok(true)` when the triple
    /// was inserted, `Ok(false)` when it was already present (a no-op, not
    /// an error), and an error when validation refuses the triple or the
    /// backing file fails.
    pub fn add_schedule(&mut self, user: &str, cron: &str, url: &str) -> (r: Result<
        bool,
        StoreError,
    >)
        ensures
            r matches Err(StoreError::Invalid(v)) ==> ({
                &&& final(self)@ == old(self)@
                &&& v == ValidationError::BadCron <==> !cron_ok(cron@)
                &&& v == ValidationError::BadUrl <==> cron_ok(cron@) && !url_ok(url@)
            }),
            !(cron_ok(cron@) && url_ok(url@)) <==> r matches Err(StoreError::Invalid(_)),
            r matches Ok(true) ==> ({
                &&& cron_ok(cron@) && url_ok(url@)
                &&& !contains_triple(old(self)@, user@, cron@, url@)
                &&& final(self)@ == old(self)@.push(final(self)@.last())
                &&& row_matches(final(self)@.last(), user@, cron@, url@)
                &&& wf_rows(old(self)@) ==> wf_rows(final(self)@)
            }),
            r matches Ok(false) ==> ({
                &&& cron_ok(cron@) && url_ok(url@)
                &&& contains_triple(old(self)@, user@, cron@, url@)
                &&& final(self)@ == old(self)@
            }),
            r matches Err(_) ==> final(self)@ == old(self)@,
    {
        match Schedule::new(None, user, cron, url) {
            Ok(_) => (),
            Err(v) => {
                return Err(StoreError::Invalid(v));
            },
        }
        match self.insert_row(user, cron, url) {
            Ok(true) => {
                proof {
                    if wf_rows(old(self)@) {
                        lemma_wf_push(old(self)@, self@.last());
                    }
                }
                Ok(true)
            },
            Ok(false) => Ok(false),
            Err(m) => Err(StoreError::Storage(m)),
        }
    }

    /// Removes the schedule with the given id; removing an absent id is not
    /// an error and removes nothing.
    pub fn delete_schedule(&mut self, id: u32) -> (r: Result<(), StoreError>)
        ensures
            r is Ok ==> final(self)@ == old(self)@.filter(|row: RowModel| row.id != id),
            r is Err ==> final(self)@ == old(self)@,
    {
        match self.delete_row(id) {
            Ok(()) => Ok(()),
            Err(m) => Err(StoreError::Storage(m)),
        }
    }

    /// Reads every stored schedule, in insertion order, silently skipping
    /// any row that no longer satisfies the schedule invariants — a defence
    /// against store corruption, not an error.
    pub fn get_schedules(&self) -> (r: Result<Vec<Schedule>, StoreError>)
        ensures
            r matches Ok(v) ==> ({
                let valid = self@.filter(
                    |row: RowModel| cron_ok(row.cron) && url_ok(row.url),
                );
                &&& v@.len() == valid.len()
                &&& forall|i: int|
                    0 <= i < v@.len() ==> (#[trigger] v@[i]).id == Some(valid[i].id)
                        && v@[i].user@ == valid[i].user && v@[i].cron@ == valid[i].cron
                        && v@[i].url@ == valid[i].url
            }),
    {
        broadcast use vstd::seq_lib::group_filter_ensures;

        let raw = match self.select_rows() {
            Ok(v) => v,
            Err(m) => {
                return Err(StoreError::Storage(m));
            },
        };
        let ghost rows = self@;
        let mut out: Vec<Schedule> = Vec::new();
        let mut i: usize = 0;
        while i < raw.len()
            invariant
                i <= raw@.len(),
                raw@.map_values(|row: StoredRow| row@) == rows,
                ({
                    let valid = rows.subrange(0, i as int).filter(
                        |row: RowModel| cron_ok(row.cron) && url_ok(row.url),
                    );
                    &&& out@.len() == valid.len()
                    &&& forall|k: int|
                        0 <= k < out@.len() ==> (#[trigger] out@[k]).id == Some(valid[k].id)
                            && out@[k].user@ == valid[k].user && out@[k].cron@ == valid[k].cron
                            && out@[k].url@ == valid[k].url
                }),
            decreases raw@.len() - i,
        {
            let row = &raw[i];
            let ghost prev = rows.subrange(0, i as int);
            proof {
                let pred = |row: RowModel| cron_ok(row.cron) && url_ok(row.url);
                assert(rows.subrange(0, i + 1) =~= prev.push(rows[i as int]));
                prev.lemma_filter_push(rows[i as int], pred);
                assert(rows[i as int] == raw@[i as int]@);
            }
            if cron_expr_ok(row.cron.as_str()) && url_parse_ok(row.url.as_str()) {
                let s = Schedule {
                    id: Some(row.id),
                    user: row.user.clone(),
                    cron: row.cron.clone(),
                    url: row.url.clone(),
                };
                out.push(s);
            }
            i += 1;
        }
        proof {
            assert(rows.subrange(0, rows.len() as int) =~= rows);
        }
        Ok(out)
    }
}

/// Pushing a fresh row with a new triple keeps the store invariant.
pub proof fn lemma_wf_push(rows: Seq<RowModel>, row: RowModel)
    requires
        wf_rows(rows),
        !contains_triple(rows, row.user, row.cron, row.url),
        forall|j: int| 0 <= j < rows.len() ==> rows[j].id != row.id,
    ensures
        wf_rows(rows.push(row)),
{
    let pushed = rows.push(row);
    assert forall|i: int, j: int| 0 <= i < j < pushed.len() implies pushed[i].id != pushed[j].id
        && !(pushed[i].user == pushed[j].user && pushed[i].cron == pushed[j].cron
        && pushed[i].url == pushed[j].url) by {
        if j == rows.len() {
            assert(pushed[j] == row);
            assert(pushed[i] == rows[i]);
            if pushed[i].user == row.user && pushed[i].cron == row.cron && pushed[i].url
                == row.url {
                assert(row_matches(rows[i], row.user, row.cron, row.url));
                assert(contains_triple(rows, row.user, row.cron, row.url));
            }
        }
    }
}

/// A triple can be stored once: adding it to a store that lacks it leaves
/// exactly one matching row, so a second identical add finds the triple
/// present and, by `add_schedule`'s contract, reports `false` and changes
/// nothing.
pub proof fn lemma_add_unique(rows: Seq<RowModel>, row: RowModel)
    requires
        wf_rows(rows),
        !contains_triple(rows, row.user, row.cron, row.url),
    ensures
        count_triple(rows.push(row), row.user, row.cron, row.url) == 1,
        contains_triple(rows.push(row), row.user, row.cron, row.url),
{
    let pred = |r: RowModel| row_matches(r, row.user, row.cron, row.url);
    assert forall|i: int| 0 <= i < rows.len() implies !pred(rows[i]) by {
        if pred(rows[i]) {
            assert(contains_triple(rows, row.user, row.cron, row.url));
        }
    }
    rows.lemma_all_neg_filter_empty(pred);
    rows.lemma_filter_push(row, pred);
    assert(pred(row));
    assert(rows.push(row)[rows.len() as int] == row);
}

} // verus!
