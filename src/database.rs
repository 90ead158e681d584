use vstd::prelude::*;

use crate::book::{
    distinct_names, lemma_map_of_domain, lemma_map_of_value, lemma_sorted_distinct, lookup, map_of,
    PhoneBook,
};
use crate::entry::{entry_opt, records_model, EntryModel, PhoneEntry, RecordModel, StoreError};

verus! {

#[verifier::external_type_specification]
#[verifier::external_body]
pub struct ExConnection(rusqlite::Connection);

#[verifier::external_type_specification]
#[verifier::external_body]
pub struct ExSqlError(rusqlite::Error);

/// The statement that creates the table where it is absent.
pub open spec fn sql_create_table() -> Seq<char> {
    "CREATE TABLE IF NOT EXISTS phone_book (name TEXT NOT NULL, phone_number TEXT NOT NULL, work_number TEXT NOT NULL)"@
}

/// The statement that deletes the rows of the name bound to `?1`.
pub open spec fn sql_delete_named() -> Seq<char> {
    "DELETE FROM phone_book WHERE name = ?1"@
}

/// The statement that deletes every row.
pub open spec fn sql_delete_all() -> Seq<char> {
    "DELETE FROM phone_book"@
}

/// The statement that appends the row `(?1, ?2, ?3)`.
pub open spec fn sql_insert() -> Seq<char> {
    "INSERT INTO phone_book (name, phone_number, work_number) VALUES(?1, ?2, ?3)"@
}

/// The statement that sets the numbers `?2`, `?3` on the rows of the name `?1`.
pub open spec fn sql_update() -> Seq<char> {
    "UPDATE phone_book SET phone_number = ?2, work_number = ?3 WHERE name = ?1"@
}

/// The query for every row.
pub open spec fn sql_select_all() -> Seq<char> {
    "SELECT name, phone_number, work_number FROM phone_book"@
}

/// The query for the rows of the name bound to `?1`.
pub open spec fn sql_select_named() -> Seq<char> {
    "SELECT name, phone_number, work_number FROM phone_book WHERE name = ?1"@
}

pub open spec fn sql_begin() -> Seq<char> {
    "BEGIN"@
}

pub open spec fn sql_commit() -> Seq<char> {
    "COMMIT"@
}

pub open spec fn sql_rollback() -> Seq<char> {
    "ROLLBACK"@
}

/// The rows that remain once those named `k` are deleted, in their order.
pub open spec fn rows_without(rs: Seq<RecordModel>, k: Seq<char>) -> Seq<RecordModel>
    decreases rs.len(),
{
    if rs.len() == 0 {
        rs
    } else if rs.last().0 == k {
        rows_without(rs.drop_last(), k)
    } else {
        rows_without(rs.drop_last(), k).push(rs.last())
    }
}

/// The rows once those named `k` have their numbers set to `v`.
pub open spec fn rows_with_numbers(rs: Seq<RecordModel>, k: Seq<char>, v: EntryModel) -> Seq<
    RecordModel,
>
    decreases rs.len(),
{
    if rs.len() == 0 {
        rs
    } else {
        let prev = rows_with_numbers(rs.drop_last(), k, v);
        if rs.last().0 == k {
            prev.push((k, v))
        } else {
            prev.push(rs.last())
        }
    }
}

/// A row handed back by a query, as a record.
pub open spec fn row_model(x: (String, String, String)) -> RecordModel {
    (x.0@, (x.1@, x.2@))
}

/// Whatever a statement changes, it keeps the path, the table's existence and
/// the rows saved at the start of a transaction.
pub open spec fn same_setup(a: PhoneBookDB, b: PhoneBookDB) -> bool {
    &&& a.path_view() == b.path_view()
    &&& a.has_table() == b.has_table()
    &&& a.saved_view() == b.saved_view()
}

/// Relies on rusqlite::Connection::open_in_memory: a connection to a fresh
/// database, which holds no table and so no row.
#[verifier::external_body]
fn open_in_memory_db() -> (r: Result<PhoneBookDB, rusqlite::Error>)
    ensures
        r matches Ok(db) ==> db.rows_view() == Seq::<RecordModel>::empty() && db.path_view() is None
            && !db.has_table(),
{
    rusqlite::Connection::open_in_memory().map(
        |conn|
            PhoneBookDB {
                database_file_path: None,
                conn,
                rows: Ghost(Seq::empty()),
                saved: Ghost(Seq::empty()),
                table: Ghost(false),
            },
    )
}

/// Relies on rusqlite::Connection::open: a connection to the database file at
/// `path`, created if it does not exist. What the file holds is not known.
#[verifier::external_body]
fn open_file_db(path: String) -> (r: Result<PhoneBookDB, rusqlite::Error>)
    ensures
        r matches Ok(db) ==> db.path_view() == Some(path@),
{
    match rusqlite::Connection::open(path.as_str()) {
        Ok(conn) => Ok(
            PhoneBookDB {
                database_file_path: Some(path),
                conn,
                rows: Ghost(arbitrary()),
                saved: Ghost(arbitrary()),
                table: Ghost(arbitrary()),
            },
        ),
        Err(e) => Err(e),
    }
}

/// Relies on rusqlite::Connection::execute running SQLite's
/// `CREATE TABLE IF NOT EXISTS`: the table exists afterwards and no row
/// changes.
#[verifier::external_body]
fn exec_create_table(db: &mut PhoneBookDB, sql: &str) -> (r: Result<usize, rusqlite::Error>)
    requires
        sql@ == sql_create_table(),
    ensures
        final(db).rows_view() == old(db).rows_view(),
        final(db).path_view() == old(db).path_view(),
        final(db).saved_view() == old(db).saved_view(),
        r is Ok ==> final(db).has_table(),
        r is Err ==> final(db).has_table() == old(db).has_table(),
{
    db.conn.execute(sql, [])
}

/// Relies on rusqlite::Connection::execute running SQLite's `DELETE ... WHERE
/// name = ?1`: on success the rows of `name` are gone and the others stay in
/// their order.
#[verifier::external_body]
fn exec_delete_named(db: &mut PhoneBookDB, sql: &str, name: &str) -> (r: Result<
    usize,
    rusqlite::Error,
>)
    requires
        sql@ == sql_delete_named(),
    ensures
        same_setup(*old(db), *final(db)),
        r is Ok ==> final(db).rows_view() == rows_without(old(db).rows_view(), name@),
{
    db.conn.execute(sql, [name])
}

/// Relies on rusqlite::Connection::execute running SQLite's `DELETE` with no
/// condition: on success no row remains.
#[verifier::external_body]
fn exec_delete_all(db: &mut PhoneBookDB, sql: &str) -> (r: Result<usize, rusqlite::Error>)
    requires
        sql@ == sql_delete_all(),
    ensures
        same_setup(*old(db), *final(db)),
        r is Ok ==> final(db).rows_view() == Seq::<RecordModel>::empty(),
{
    db.conn.execute(sql, [])
}

/// Relies on rusqlite::Connection::execute running SQLite's `INSERT`: on
/// success one row `(name, mobile, work)` is added after the others.
#[verifier::external_body]
fn exec_insert(db: &mut PhoneBookDB, sql: &str, name: &str, mobile: &str, work: &str) -> (r:
    Result<usize, rusqlite::Error>)
    requires
        sql@ == sql_insert(),
    ensures
        same_setup(*old(db), *final(db)),
        r is Ok ==> final(db).rows_view() == old(db).rows_view().push((name@, (mobile@, work@))),
{
    db.conn.execute(sql, [name, mobile, work])
}

/// Relies on rusqlite::Connection::execute running SQLite's `UPDATE ... WHERE
/// name = ?1`: on success the rows of `name` get the two numbers and nothing
/// else changes.
#[verifier::external_body]
fn exec_update(db: &mut PhoneBookDB, sql: &str, name: &str, mobile: &str, work: &str) -> (r:
    Result<usize, rusqlite::Error>)
    requires
        sql@ == sql_update(),
    ensures
        same_setup(*old(db), *final(db)),
        r is Ok ==> final(db).rows_view() == rows_with_numbers(
            old(db).rows_view(),
            name@,
            (mobile@, work@),
        ),
{
    db.conn.execute(sql, [name, mobile, work])
}

/// Relies on rusqlite::Connection::execute running SQLite's `BEGIN`: no row
/// changes, and the rows as they are now are what a rollback returns to.
#[verifier::external_body]
fn exec_begin(db: &mut PhoneBookDB, sql: &str) -> (r: Result<usize, rusqlite::Error>)
    requires
        sql@ == sql_begin(),
    ensures
        final(db).rows_view() == old(db).rows_view(),
        final(db).path_view() == old(db).path_view(),
        final(db).has_table() == old(db).has_table(),
        r is Ok ==> final(db).saved_view() == old(db).rows_view(),
{
    db.conn.execute(sql, [])
}

/// Relies on rusqlite::Connection::execute running SQLite's `COMMIT`: no row
/// changes.
#[verifier::external_body]
fn exec_commit(db: &mut PhoneBookDB, sql: &str) -> (r: Result<usize, rusqlite::Error>)
    requires
        sql@ == sql_commit(),
    ensures
        same_setup(*old(db), *final(db)),
        r is Ok ==> final(db).rows_view() == old(db).rows_view(),
{
    db.conn.execute(sql, [])
}

/// Relies on rusqlite::Connection::execute running SQLite's `ROLLBACK`: on
/// success the rows are those of the start of the transaction.
#[verifier::external_body]
fn exec_rollback(db: &mut PhoneBookDB, sql: &str) -> (r: Result<usize, rusqlite::Error>)
    requires
        sql@ == sql_rollback(),
    ensures
        same_setup(*old(db), *final(db)),
        r is Ok ==> final(db).rows_view() == old(db).saved_view(),
{
    db.conn.execute(sql, [])
}

/// Relies on rusqlite's Connection::prepare and Statement::query_map running
/// SQLite's `SELECT` of every row: each row's three columns as text, the same
/// rows as the table holds, in an order SQLite picks.
#[verifier::external_body]
fn select_all(db: &PhoneBookDB, sql: &str) -> (r: Result<
    Vec<(String, String, String)>,
    rusqlite::Error,
>)
    requires
        sql@ == sql_select_all(),
    ensures
        r matches Ok(v) ==> v@.map_values(|x: (String, String, String)| row_model(x)).to_multiset()
            == db.rows_view().to_multiset(),
{
    let mut stmt = db.conn.prepare(sql)?;
    let rows = stmt.query_map([], |row| <(String, String, String)>::try_from(row))?;
    rows.collect()
}

/// Relies on rusqlite's Connection::prepare and Statement::query_map running
/// SQLite's `SELECT ... WHERE name = ?1`: the rows of `name`, each row's three
/// columns as text, in an order SQLite picks.
#[verifier::external_body]
fn select_named(db: &PhoneBookDB, sql: &str, name: &str) -> (r: Result<
    Vec<(String, String, String)>,
    rusqlite::Error,
>)
    requires
        sql@ == sql_select_named(),
    ensures
        r matches Ok(v) ==> v@.map_values(|x: (String, String, String)| row_model(x)).to_multiset()
            == named(db.rows_view(), Some(name@)).to_multiset(),
{
    let mut stmt = db.conn.prepare(sql)?;
    let rows = stmt.query_map([name], |row| <(String, String, String)>::try_from(row))?;
    rows.collect()
}

/// The records of `rs` in their order, only those named `name` where a name
/// is given.
pub open spec fn named(rs: Seq<RecordModel>, name: Option<Seq<char>>) -> Seq<RecordModel>
    decreases rs.len(),
{
    if rs.len() == 0 {
        rs
    } else {
        let prev = named(rs.drop_last(), name);
        match name {
            Some(k) => if rs.last().0 == k {
                prev.push(rs.last())
            } else {
                prev
            },
            None => prev.push(rs.last()),
        }
    }
}

/// What an optional name is to the proofs.
pub open spec fn name_opt(o: Option<String>) -> Option<Seq<char>> {
    match o {
        Some(s) => Some(s@),
        None => None,
    }
}

/// Turns `(name, mobile, work)` rows into records, in their order, keeping
/// only the rows of `name` where a name is given.
pub fn records_from_rows(rows: Vec<(String, String, String)>, name: &Option<String>) -> (r: Vec<
    (String, PhoneEntry),
>)
    ensures
        records_model(r@) == named(
            rows@.map_values(|x: (String, String, String)| row_model(x)),
            name_opt(*name),
        ),
{
    let ghost all = rows@.map_values(|x: (String, String, String)| row_model(x));
    let mut out: Vec<(String, PhoneEntry)> = Vec::new();
    let mut i: usize = 0;
    assert(all.take(0) =~= Seq::<RecordModel>::empty());
    assert(records_model(out@) =~= Seq::<RecordModel>::empty());
    while i < rows.len()
        invariant
            i <= rows.len(),
            all == rows@.map_values(|x: (String, String, String)| row_model(x)),
            records_model(out@) == named(all.take(i as int), name_opt(*name)),
        decreases rows.len() - i,
    {
        let keep = match name {
            Some(k) => rows[i].0 == *k,
            None => true,
        };
        assert(all.take(i + 1).drop_last() =~= all.take(i as int));
        assert(all.take(i + 1).last() == row_model(rows@[i as int]));
        if keep {
            let item = (
                rows[i].0.clone(),
                PhoneEntry::new(rows[i].1.clone(), rows[i].2.clone()),
            );
            let ghost prev = out@;
            out.push(item);
            assert(records_model(out@) =~= records_model(prev).push(item@));
        }
        i = i + 1;
    }
    assert(all.take(i as int) =~= all);
    out
}

/// The phone book kept in the single table `phone_book` of an SQLite
/// database. The proofs follow the table's rows, in the order they were
/// written; they hold while this handle is the only writer to the database.
pub struct PhoneBookDB {
    database_file_path: Option<String>,
    conn: rusqlite::Connection,
    rows: Ghost<Seq<RecordModel>>,
    saved: Ghost<Seq<RecordModel>>,
    table: Ghost<bool>,
}

impl View for PhoneBookDB {
    type V = Map<Seq<char>, EntryModel>;

    /// The phone book that the rows describe.
    open spec fn view(&self) -> Map<Seq<char>, EntryModel> {
        map_of(self.rows_view())
    }
}

impl PhoneBookDB {
    /// The rows of the table, in the order they were written; none where
    /// there is no table.
    pub closed spec fn rows_view(&self) -> Seq<RecordModel> {
        self.rows@
    }

    /// The rows a rollback returns to.
    pub closed spec fn saved_view(&self) -> Seq<RecordModel> {
        self.saved@
    }

    /// Whether the table exists.
    pub closed spec fn has_table(&self) -> bool {
        self.table@
    }

    /// The path of the database file; none for a database in memory.
    pub closed spec fn path_view(&self) -> Option<Seq<char>> {
        name_opt(self.database_file_path)
    }

    /// Each name has at most one row.
    pub open spec fn wf(&self) -> bool {
        distinct_names(self.rows_view())
    }

    /// Opens the database file at `file_path`, created if it does not exist,
    /// or a fresh database in memory where no path is given, and creates the
    /// table if it is absent.
    pub fn new(file_path: Option<String>) -> (r: Result<PhoneBookDB, StoreError>)
        ensures
            r matches Ok(db) ==> db.path_view() == name_opt(file_path) && db.has_table(),
            r matches Ok(db) ==> (file_path is None ==> db.rows_view() == Seq::<RecordModel>::empty()
                && db.wf()),
            r matches Err(e) ==> e == StoreError::StorageUnavailable,
    {
        let opened = match file_path {
            Some(p) => open_file_db(p),
            None => open_in_memory_db(),
        };
        let mut db = match opened {
            Ok(db) => db,
            Err(_) => return Err(StoreError::StorageUnavailable),
        };
        match db.create_table_if_not_exists() {
            Ok(()) => Ok(db),
            Err(_) => Err(StoreError::StorageUnavailable),
        }
    }

    /// The path the database was opened at, if any.
    pub fn file_path(&self) -> (r: Option<&str>)
        ensures
            match r {
                Some(p) => self.path_view() == Some(p@),
                None => self.path_view() is None,
            },
    {
        match &self.database_file_path {
            Some(p) => Some(p.as_str()),
            None => None,
        }
    }

    fn create_table_if_not_exists(&mut self) -> (r: Result<(), StoreError>)
        ensures
            final(self).rows_view() == old(self).rows_view(),
            final(self).path_view() == old(self).path_view(),
            final(self).saved_view() == old(self).saved_view(),
            r is Ok ==> final(self).has_table(),
            r is Err ==> final(self).has_table() == old(self).has_table(),
            r matches Err(e) ==> e == StoreError::StorageIoFailure,
    {
        match exec_create_table(
            self,
            "CREATE TABLE IF NOT EXISTS phone_book (name TEXT NOT NULL, phone_number TEXT NOT NULL, work_number TEXT NOT NULL)",
        ) {
            Ok(_) => Ok(()),
            Err(_) => Err(StoreError::StorageIoFailure),
        }
    }
}

impl PhoneBookDB {
    /// Replaces the numbers of `name` where it has rows; an absent name is
    /// left absent.
    pub fn modify_entry(&mut self, name: String, entry: PhoneEntry) -> (r: Result<(), StoreError>)
        ensures
            final(self).path_view() == old(self).path_view(),
            r is Ok ==> final(self).rows_view() == rows_with_numbers(
                old(self).rows_view(),
                name@,
                entry@,
            ),
            r is Ok ==> final(self).rows_view().len() == old(self).rows_view().len(),
            r is Ok ==> final(self)@ == if old(self)@.contains_key(name@) {
                old(self)@.insert(name@, entry@)
            } else {
                old(self)@
            },
            r is Ok && old(self).wf() ==> final(self).wf(),
            r matches Err(e) ==> e == StoreError::StorageIoFailure,
    {
        self.create_table_if_not_exists()?;
        proof {
            lemma_rows_with_numbers(self.rows_view(), name@, entry@);
        }
        match exec_update(
            self,
            "UPDATE phone_book SET phone_number = ?2, work_number = ?3 WHERE name = ?1",
            name.as_str(),
            entry.mobile.as_str(),
            entry.work.as_str(),
        ) {
            Ok(_) => Ok(()),
            Err(_) => Err(StoreError::StorageIoFailure),
        }
    }

    /// Deletes the rows of `name`; an absent name is no error.
    pub fn remove_entry(&mut self, name: &str) -> (r: Result<(), StoreError>)
        ensures
            final(self).path_view() == old(self).path_view(),
            r is Ok ==> final(self).rows_view() == rows_without(old(self).rows_view(), name@),
            r is Ok ==> final(self)@ == old(self)@.remove(name@),
            r is Ok && old(self).wf() ==> final(self).wf(),
            r matches Err(e) ==> e == StoreError::StorageIoFailure,
    {
        self.create_table_if_not_exists()?;
        proof {
            lemma_rows_without(self.rows_view(), name@);
        }
        match exec_delete_named(self, "DELETE FROM phone_book WHERE name = ?1", name) {
            Ok(_) => Ok(()),
            Err(_) => Err(StoreError::StorageIoFailure),
        }
    }

    /// Sets the entry of `name`: its rows are deleted, then one row is added.
    pub fn write_entry(&mut self, name: String, entry: PhoneEntry) -> (r: Result<(), StoreError>)
        ensures
            final(self).path_view() == old(self).path_view(),
            r is Ok ==> final(self).rows_view() == rows_without(old(self).rows_view(), name@).push(
                (name@, entry@),
            ),
            r is Ok ==> final(self)@ == old(self)@.insert(name@, entry@),
            r is Ok && old(self).wf() ==> final(self).wf(),
            r matches Err(e) ==> e == StoreError::StorageIoFailure,
    {
        self.create_table_if_not_exists()?;
        let ghost before = self.rows_view();
        proof {
            lemma_rows_without(before, name@);
            if distinct_names(before) {
                lemma_push_distinct(rows_without(before, name@), (name@, entry@));
            }
            let after = rows_without(before, name@).push((name@, entry@));
            assert(after.drop_last() =~= rows_without(before, name@));
            assert(map_of(after) =~= map_of(before).insert(name@, entry@));
        }
        if exec_delete_named(self, "DELETE FROM phone_book WHERE name = ?1", name.as_str()).is_err() {
            return Err(StoreError::StorageIoFailure);
        }
        match exec_insert(
            self,
            "INSERT INTO phone_book (name, phone_number, work_number) VALUES(?1, ?2, ?3)",
            name.as_str(),
            entry.mobile.as_str(),
            entry.work.as_str(),
        ) {
            Ok(_) => Ok(()),
            Err(_) => Err(StoreError::StorageIoFailure),
        }
    }
}

/// Deleting the rows of `k` keeps the other rows and removes `k` from the
/// phone book.
pub proof fn lemma_rows_without(rs: Seq<RecordModel>, k: Seq<char>)
    ensures
        forall|i: int|
            0 <= i < rows_without(rs, k).len() ==> rs.contains(#[trigger] rows_without(rs, k)[i])
                && rows_without(rs, k)[i].0 != k,
        map_of(rows_without(rs, k)) == map_of(rs).remove(k),
        distinct_names(rs) ==> distinct_names(rows_without(rs, k)),
    decreases rs.len(),
{
    if rs.len() > 0 {
        let dl = rs.drop_last();
        let w = rows_without(rs, k);
        let wd = rows_without(dl, k);
        lemma_rows_without(dl, k);
        assert forall|i: int| 0 <= i < w.len() implies rs.contains(#[trigger] w[i]) && w[i].0 != k by {
            if i < wd.len() {
                assert(w[i] == wd[i]);
                let j = choose|j: int| 0 <= j < dl.len() && dl[j] == wd[i];
                assert(rs[j] == dl[j]);
            } else {
                assert(rs[rs.len() - 1] == w[i]);
            }
        }
        if rs.last().0 == k {
            assert(w == wd);
            assert(map_of(w) =~= map_of(rs).remove(k));
        } else {
            assert(w == wd.push(rs.last()));
            assert(w.drop_last() =~= wd);
            assert(map_of(w) =~= map_of(rs).remove(k));
        }
        if distinct_names(rs) {
            assert(distinct_names(dl)) by {
                assert forall|i: int, j: int| 0 <= i < j < dl.len() implies dl[i].0 != dl[j].0 by {
                    assert(dl[i] == rs[i] && dl[j] == rs[j]);
                }
            }
            if rs.last().0 != k {
                assert forall|i: int| 0 <= i < wd.len() implies wd[i].0 != rs.last().0 by {
                    let j = choose|j: int| 0 <= j < dl.len() && dl[j] == wd[i];
                    assert(rs[j] == dl[j]);
                }
                lemma_push_distinct(wd, rs.last());
            }
        }
    }
}

pub proof fn lemma_push_distinct(rs: Seq<RecordModel>, x: RecordModel)
    requires
        distinct_names(rs),
        forall|i: int| 0 <= i < rs.len() ==> rs[i].0 != x.0,
    ensures
        distinct_names(rs.push(x)),
{
    let p = rs.push(x);
    assert forall|i: int, j: int| 0 <= i < j < p.len() implies p[i].0 != p[j].0 by {
        assert(p[i] == rs[i]);
        if j < rs.len() {
            assert(p[j] == rs[j]);
        }
    }
}

/// Setting the numbers of `k` keeps every name in place, and sets `k` in the
/// phone book where it is present.
pub proof fn lemma_rows_with_numbers(rs: Seq<RecordModel>, k: Seq<char>, v: EntryModel)
    ensures
        rows_with_numbers(rs, k, v).len() == rs.len(),
        forall|i: int| 0 <= i < rs.len() ==> (#[trigger] rows_with_numbers(rs, k, v)[i]).0 == rs[i].0,
        map_of(rows_with_numbers(rs, k, v)) == if map_of(rs).contains_key(k) {
            map_of(rs).insert(k, v)
        } else {
            map_of(rs)
        },
        distinct_names(rs) ==> distinct_names(rows_with_numbers(rs, k, v)),
    decreases rs.len(),
{
    if rs.len() > 0 {
        let dl = rs.drop_last();
        let u = rows_with_numbers(rs, k, v);
        let ud = rows_with_numbers(dl, k, v);
        lemma_rows_with_numbers(dl, k, v);
        assert forall|i: int| 0 <= i < rs.len() implies (#[trigger] u[i]).0 == rs[i].0 by {
            if i < dl.len() {
                assert(u[i] == ud[i]);
            }
        }
        assert(u.drop_last() =~= ud);
        if rs.last().0 == k {
            assert(u.last() == (k, v));
        } else {
            assert(u.last() == rs.last());
        }
        assert(map_of(u) =~= if map_of(rs).contains_key(k) {
            map_of(rs).insert(k, v)
        } else {
            map_of(rs)
        });
    }
}

impl PhoneBookDB {
    /// The rows of the table as records, in an order SQLite picks; only those
    /// of `name` where a name is given.
    pub fn read_all_entries_as_vec(&self, name: Option<String>) -> (r: Result<
        Vec<(String, PhoneEntry)>,
        StoreError,
    >)
        ensures
            r matches Ok(v) ==> records_model(v@).to_multiset() == named(
                self.rows_view(),
                name_opt(name),
            ).to_multiset(),
            r matches Err(e) ==> e == StoreError::StorageIoFailure,
    {
        let selected = match &name {
            Some(k) => select_named(
                self,
                "SELECT name, phone_number, work_number FROM phone_book WHERE name = ?1",
                k.as_str(),
            ),
            None => select_all(self, "SELECT name, phone_number, work_number FROM phone_book"),
        };
        match selected {
            Ok(rows) => {
                let ghost got = rows@.map_values(|x: (String, String, String)| row_model(x));
                let records = records_from_rows(rows, &name);
                proof {
                    broadcast use vstd::seq_lib::group_to_multiset_ensures;

                    lemma_named_none(self.rows_view());
                    match name {
                        None => {
                            lemma_named_none(got);
                        },
                        Some(k) => {
                            lemma_named_members(self.rows_view(), k@);
                            assert forall|i: int| 0 <= i < got.len() implies (#[trigger] got[i]).0
                                == k@ by {
                                assert(got.contains(got[i]));
                                assert(got.to_multiset().count(got[i]) > 0);
                            }
                            lemma_named_all_match(got, k@);
                        },
                    }
                }
                Ok(records)
            },
            Err(_) => Err(StoreError::StorageIoFailure),
        }
    }

    /// Every entry, in ascending order of name: the phone book the rows
    /// describe, where each name has at most one row.
    pub fn read_all_entries(&self) -> (r: Result<PhoneBook, StoreError>)
        ensures
            r matches Ok(b) ==> b.wf() && (self.wf() ==> b@ == self@),
            r matches Err(e) ==> e == StoreError::StorageIoFailure,
    {
        let data = self.read_all_entries_as_vec(None)?;
        let ghost a = records_model(data@);
        let book = PhoneBook::from_records(data);
        proof {
            broadcast use vstd::seq_lib::group_to_multiset_ensures;

            lemma_named_none(self.rows_view());
            let rows = self.rows_view();
            if self.wf() {
                assert forall|x: RecordModel| a.contains(x) implies rows.contains(x) by {
                    assert(a.to_multiset().count(x) > 0);
                }
                assert forall|k: Seq<char>| #[trigger] lookup(map_of(a), k) == lookup(map_of(rows), k) by {
                    if exists|j: int| 0 <= j < rows.len() && rows[j].0 == k {
                        let j = choose|j: int| 0 <= j < rows.len() && rows[j].0 == k;
                        assert(rows.contains(rows[j]));
                        assert(rows.to_multiset().count(rows[j]) > 0);
                        assert(a.contains(rows[j]));
                    }
                    lemma_map_agrees(a, rows, k);
                }
                assert forall|k: Seq<char>| #[trigger] map_of(a).contains_key(k) == map_of(rows).contains_key(k) by {
                    assert(lookup(map_of(a), k) == lookup(map_of(rows), k));
                }
                assert forall|k: Seq<char>| #[trigger] map_of(a).contains_key(k) implies map_of(a)[k] == map_of(rows)[k] by {
                    assert(lookup(map_of(a), k) == lookup(map_of(rows), k));
                }
                assert(map_of(a) =~= map_of(rows));
            }
        }
        Ok(book)
    }

    /// The entry of `name`, if it has one: where each name has at most one
    /// row, the same as looking `name` up in `read_all_entries`.
    pub fn read_entry(&self, name: String) -> (r: Result<Option<PhoneEntry>, StoreError>)
        ensures
            r matches Ok(o) ==> (self.wf() ==> entry_opt(o) == lookup(self@, name@)),
            r matches Err(e) ==> e == StoreError::StorageIoFailure,
    {
        let data = self.read_all_entries_as_vec(Some(name.clone()))?;
        let ghost a = records_model(data@);
        let book = PhoneBook::from_records(data);
        proof {
            broadcast use vstd::seq_lib::group_to_multiset_ensures;

            let rows = self.rows_view();
            lemma_named_members(rows, name@);
            if self.wf() {
                assert forall|x: RecordModel| a.contains(x) implies rows.contains(x) by {
                    assert(a.to_multiset().count(x) > 0);
                    assert(named(rows, Some(name@)).contains(x));
                }
                if exists|j: int| 0 <= j < rows.len() && rows[j].0 == name@ {
                    let j = choose|j: int| 0 <= j < rows.len() && rows[j].0 == name@;
                    assert(rows.contains(rows[j]));
                    assert(named(rows, Some(name@)).contains(rows[j]));
                    assert(named(rows, Some(name@)).to_multiset().count(rows[j]) > 0);
                    assert(a.contains(rows[j]));
                }
                lemma_map_agrees(a, rows, name@);
            }
        }
        Ok(book.get(name.as_str()))
    }

    /// Replaces the whole table by `book` inside one transaction. On success
    /// the rows are the book's, one per name in ascending order. On
    /// `StorageIoFailure` the transaction was rolled back and the rows are as
    /// before; `StorageUnavailable` means the rollback failed too.
    pub fn write_all_entries(&mut self, book: &PhoneBook) -> (r: Result<(), StoreError>)
        requires
            book.wf(),
        ensures
            final(self).path_view() == old(self).path_view(),
            r is Ok ==> final(self).rows_view() == book.records_view() && final(self)@ == book@
                && final(self).wf(),
            r matches Err(e) ==> (e == StoreError::StorageIoFailure ==> final(self).rows_view()
                == old(self).rows_view()),
            r matches Err(e) ==> e == StoreError::StorageIoFailure || e
                == StoreError::StorageUnavailable,
    {
        let ghost before = self.rows_view();
        self.create_table_if_not_exists()?;
        if exec_begin(self, "BEGIN").is_err() {
            return Err(StoreError::StorageIoFailure);
        }
        let entries = book.entries();
        let ghost all = records_model(entries@);
        let mut failed = exec_delete_all(self, "DELETE FROM phone_book").is_err();
        let mut i: usize = 0;
        assert(all.take(0) =~= Seq::<RecordModel>::empty());
        while i < entries.len() && !failed
            invariant
                i <= entries.len(),
                all == records_model(entries@),
                self.saved_view() == before,
                self.path_view() == old(self).path_view(),
                !failed ==> self.rows_view() == all.take(i as int),
            decreases entries.len() - i,
        {
            let ghost prev = self.rows_view();
            failed = exec_insert(
                self,
                "INSERT INTO phone_book (name, phone_number, work_number) VALUES(?1, ?2, ?3)",
                entries[i].0.as_str(),
                entries[i].1.mobile.as_str(),
                entries[i].1.work.as_str(),
            ).is_err();
            assert(all.take(i + 1) =~= all.take(i as int).push(entries@[i as int]@));
            i = i + 1;
        }
        if !failed {
            assert(all.take(i as int) =~= all);
            failed = exec_commit(self, "COMMIT").is_err();
        }
        if failed {
            if exec_rollback(self, "ROLLBACK").is_ok() {
                return Err(StoreError::StorageIoFailure);
            }
            return Err(StoreError::StorageUnavailable);
        }
        proof {
            assert forall|x: int, y: int| 0 <= x < y < all.len() implies all[x].0 != all[y].0 by {
                lemma_sorted_distinct(all, x, y);
            }
        }
        Ok(())
    }
}

pub proof fn lemma_named_none(rs: Seq<RecordModel>)
    ensures
        named(rs, None) == rs,
    decreases rs.len(),
{
    if rs.len() > 0 {
        lemma_named_none(rs.drop_last());
        assert(rs.drop_last().push(rs.last()) =~= rs);
    }
}

pub proof fn lemma_named_all_match(rs: Seq<RecordModel>, k: Seq<char>)
    requires
        forall|i: int| 0 <= i < rs.len() ==> (#[trigger] rs[i]).0 == k,
    ensures
        named(rs, Some(k)) == rs,
    decreases rs.len(),
{
    if rs.len() > 0 {
        let dl = rs.drop_last();
        assert forall|i: int| 0 <= i < dl.len() implies (#[trigger] dl[i]).0 == k by {
            assert(dl[i] == rs[i]);
        }
        lemma_named_all_match(dl, k);
        assert(dl.push(rs.last()) =~= rs);
    }
}

/// The records kept for a name are the records of that name.
pub proof fn lemma_named_members(rs: Seq<RecordModel>, k: Seq<char>)
    ensures
        forall|x: RecordModel| #[trigger] named(rs, Some(k)).contains(x) <==> rs.contains(x) && x.0 == k,
    decreases rs.len(),
{
    if rs.len() > 0 {
        let dl = rs.drop_last();
        lemma_named_members(dl, k);
        let n = named(rs, Some(k));
        let nd = named(dl, Some(k));
        assert forall|x: RecordModel| #[trigger] n.contains(x) <==> rs.contains(x) && x.0 == k by {
            if rs.last().0 == k {
                assert(n == nd.push(rs.last()));
            } else {
                assert(n == nd);
            }
            if n.contains(x) {
                let i = choose|i: int| 0 <= i < n.len() && n[i] == x;
                if i < nd.len() {
                    assert(nd[i] == n[i]);
                    assert(nd.contains(x));
                    let j = choose|j: int| 0 <= j < dl.len() && dl[j] == x;
                    assert(rs[j] == dl[j]);
                } else {
                    assert(rs[rs.len() - 1] == x);
                }
            }
            if rs.contains(x) && x.0 == k {
                let j = choose|j: int| 0 <= j < rs.len() && rs[j] == x;
                if j < dl.len() {
                    assert(dl[j] == x);
                    assert(nd.contains(x));
                    let i = choose|i: int| 0 <= i < nd.len() && nd[i] == x;
                    assert(n[i] == x);
                } else {
                    assert(n[n.len() - 1] == x);
                }
            }
        }
    }
}

/// The value of a name in the phone book is one of its records.
pub proof fn lemma_map_of_member(a: Seq<RecordModel>, k: Seq<char>)
    requires
        map_of(a).contains_key(k),
    ensures
        a.contains((k, map_of(a)[k])),
    decreases a.len(),
{
    let dl = a.drop_last();
    if a.last().0 == k {
        assert(a[a.len() - 1] == (k, map_of(a)[k]));
    } else {
        lemma_map_of_member(dl, k);
        let i = choose|i: int| 0 <= i < dl.len() && dl[i] == (k, map_of(dl)[k]);
        assert(a[i] == dl[i]);
    }
}

/// Records drawn from distinct rows, holding each name that the rows hold,
/// give the same entry for that name.
pub proof fn lemma_map_agrees(a: Seq<RecordModel>, rows: Seq<RecordModel>, k: Seq<char>)
    requires
        distinct_names(rows),
        forall|x: RecordModel| a.contains(x) ==> rows.contains(x),
        (exists|j: int| 0 <= j < rows.len() && rows[j].0 == k) ==> (exists|i: int|
            0 <= i < a.len() && a[i].0 == k),
    ensures
        lookup(map_of(a), k) == lookup(map_of(rows), k),
{
    lemma_map_of_domain(a, k);
    lemma_map_of_domain(rows, k);
    if map_of(a).contains_key(k) {
        lemma_map_of_member(a, k);
        let x = (k, map_of(a)[k]);
        assert(rows.contains(x));
        let j = choose|j: int| 0 <= j < rows.len() && rows[j] == x;
        lemma_map_of_value(rows, j);
    } else if map_of(rows).contains_key(k) {
        let i = choose|i: int| 0 <= i < a.len() && a[i].0 == k;
        assert(false);
    }
}

} // verus!
