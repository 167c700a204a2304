//! The SQLite store: schema, statements, and the reading back of the
//! current state.  The statements and their parameters are built here;
//! `rusqlite` runs them.
use vstd::prelude::*;
use vstd::hash_map::StringHashMap;
use rusqlite::OptionalExtension;
use crate::error::{ScribeError, ErrorView};
use crate::item::Item;
use crate::json::{JsonValue, string_text};
use crate::parser::{json_canonical, spec_json_canonical};
use crate::item::map_from_entries;
use crate::hash::content_hash_of;
use crate::sort::views;
use crate::text::{dec_text, push_dec};
use crate::hash::compute_content_hash;

verus! {

broadcast use vstd::hash_map::group_hash_map_axioms;

/// `rusqlite::Connection`: an open SQLite database.
#[verifier::external_type_specification]
#[verifier::external_body]
pub struct ExConnection(rusqlite::Connection);

/// `rusqlite::Transaction`: a transaction on a connection.
#[verifier::external_type_specification]
#[verifier::external_body]
pub struct ExTransaction<'conn>(rusqlite::Transaction<'conn>);

/// A parameter of a statement.
pub enum SqlParam {
    /// Bound as text.
    Text(String),
    /// A time in seconds since the Unix epoch, bound as `chrono`'s UTC date-time.
    UnixTime(i64),
}

/// `rusqlite::Connection::open`: opens or creates the database file.  The
/// outcome depends on the file system; the contract states nothing of it.
#[verifier::external_body]
fn open_connection(path: &str) -> (r: Result<rusqlite::Connection, String>) {
    rusqlite::Connection::open(path).map_err(|e| e.to_string())
}

/// `rusqlite::Connection::execute`: runs one statement with its parameters,
/// a time bound through `chrono::DateTime::from_timestamp`.  The outcome
/// depends on the database; the contract states nothing of it.
#[verifier::external_body]
fn execute(conn: &rusqlite::Connection, sql: &str, params: &Vec<SqlParam>) -> (r: Result<usize, String>) {
    let values: Vec<Box<dyn rusqlite::ToSql>> = params.iter().map(|p| match p {
        SqlParam::Text(t) => Box::new(t.clone()) as Box<dyn rusqlite::ToSql>,
        SqlParam::UnixTime(s) => Box::new(chrono::DateTime::from_timestamp(*s, 0)) as Box<dyn rusqlite::ToSql>,
    }).collect();
    conn.execute(sql, rusqlite::params_from_iter(values.iter())).map_err(|e| e.to_string())
}

/// `rusqlite::Transaction`'s `Deref` to its connection.  No contract.
#[verifier::external_body]
fn tx_connection<'a, 'c>(tx: &'a rusqlite::Transaction<'c>) -> (conn: &'a rusqlite::Connection) {
    tx
}

/// `rusqlite::Connection::transaction`: begins a transaction.  The outcome
/// depends on the database; the contract states nothing of it.
#[verifier::external_body]
fn begin(conn: &mut rusqlite::Connection) -> (r: Result<rusqlite::Transaction<'_>, String>) {
    conn.transaction().map_err(|e| e.to_string())
}

/// `rusqlite::Transaction::commit`: commits the transaction.  The outcome
/// depends on the database; the contract states nothing of it.
#[verifier::external_body]
fn commit_transaction(tx: rusqlite::Transaction<'_>) -> (r: Result<(), String>) {
    tx.commit().map_err(|e| e.to_string())
}

/// Holds of a query and an answer that SQLite gave to it: the count in the
/// first column of its only row, `None` where the query failed.  Nothing is
/// claimed of which answer comes: two runs of one query may differ.
pub uninterp spec fn count_answer(sql: Seq<char>, count: Option<int>) -> bool;

/// Holds of a query and an answer that SQLite gave to it: the text in the
/// first column of its first row (`None` with no row), or the error's
/// message.  Nothing is claimed of which answer comes.
pub uninterp spec fn text_answer(sql: Seq<char>, answer: Result<Option<Seq<char>>, Seq<char>>) -> bool;

/// Holds of a query and rows that SQLite answered it with, each field as
/// text (`None` where it cannot be read as text).  Nothing is claimed of
/// which answer comes.
pub uninterp spec fn rows_answer(sql: Seq<char>, rows: Seq<Seq<Option<Seq<char>>>>) -> bool;

pub open spec fn count_view(r: Result<i64, String>) -> Option<int> {
    match r {
        Ok(n) => Some(n as int),
        Err(_) => None,
    }
}

pub open spec fn text_view(r: Result<Option<String>, String>) -> Result<Option<Seq<char>>, Seq<char>> {
    match r {
        Ok(Some(t)) => Ok(Some(t@)),
        Ok(None) => Ok(None),
        Err(m) => Err(m@),
    }
}

/// `rusqlite::Connection::query_row`: the integer in the first column of the
/// only row of a query.  The contract ties the result to the query it
/// answers; which answer comes depends on the database and is not stated.
#[verifier::external_body]
fn query_integer(conn: &rusqlite::Connection, sql: &str) -> (r: Result<i64, String>)
    ensures
        count_answer(sql@, count_view(r)),
{
    conn.query_row(sql, [], |row| row.get::<_, i64>(0)).map_err(|e| e.to_string())
}

/// `rusqlite::Connection::query_row` with `optional`: the text in the first
/// column of the first row of a query, if there is a row.  The contract ties
/// the result to the query it answers; which answer comes depends on the
/// database and is not stated.
#[verifier::external_body]
fn query_optional_text(conn: &rusqlite::Connection, sql: &str) -> (r: Result<Option<String>, String>)
    ensures
        text_answer(sql@, text_view(r)),
{
    conn.query_row(sql, [], |row| row.get::<_, String>(0)).optional().map_err(|e| e.to_string())
}

/// `rusqlite::Statement::query`: the rows of a query, each field read as
/// text (`None` where it cannot be read as text, which includes text that is
/// not UTF-8).  The contract ties the rows to the query they answer; which
/// rows come depends on the database and is not stated.
#[verifier::external_body]
fn query_text_rows(conn: &rusqlite::Connection, sql: &str) -> (r: Result<Vec<Vec<Option<String>>>, String>)
    ensures
        r matches Ok(rows) ==> rows_answer(sql@, rows_view(rows@)),
{
    let mut stmt = conn.prepare(sql).map_err(|e| e.to_string())?;
    let n = stmt.column_count();
    let mut rows = stmt.query([]).map_err(|e| e.to_string())?;
    let mut out = Vec::new();
    while let Some(row) = rows.next().map_err(|e| e.to_string())? {
        out.push((0..n).map(|i| row.get::<_, String>(i).ok()).collect());
    }
    Ok(out)
}

/// The parts joined by `sep`.
pub open spec fn join(parts: Seq<Seq<char>>, sep: Seq<char>) -> Seq<char>
    decreases parts.len(),
{
    if parts.len() == 0 {
        Seq::empty()
    } else if parts.len() == 1 {
        parts[0]
    } else {
        join(parts.drop_last(), sep) + sep + parts.last()
    }
}

/// Joins strings with a separator.
pub fn join_strings(parts: &Vec<String>, sep: &str) -> (r: String)
    ensures
        r@ == join(views(parts@), sep@),
{
    let ghost ps = views(parts@);
    let mut r = String::new();
    let mut i: usize = 0;
    while i < parts.len()
        invariant
            i <= parts@.len(),
            ps == views(parts@),
            r@ == join(ps.take(i as int), sep@),
        decreases parts@.len() - i,
    {
        assert(ps.take(i + 1).drop_last() =~= ps.take(i as int));
        if i > 0 {
            r.append(sep);
        }
        r.append(parts[i].as_str());
        proof {
            if i == 0 {
                assert(join(ps.take(0), sep@) =~= Seq::<char>::empty());
                assert(ps.take(1) =~= seq![ps[0]]);
            }
        }
        assert(r@ =~= join(ps.take(i + 1), sep@));
        i = i + 1;
    }
    assert(ps.take(parts@.len() as int) =~= ps);
    r
}

/// A column name in double quotes.
pub open spec fn quoted(c: Seq<char>) -> Seq<char> {
    seq!['"'] + c + seq!['"']
}

/// The definitions of the data columns: `"col" TEXT, ...`.
pub open spec fn column_defs(cols: Seq<Seq<char>>) -> Seq<char> {
    join(cols.map_values(|c: Seq<char>| quoted(c) + " TEXT"@), ", "@)
}

/// The data column names: `"col", ...`.
pub open spec fn column_list(cols: Seq<Seq<char>>) -> Seq<char> {
    join(cols.map_values(|c: Seq<char>| quoted(c)), ", "@)
}

/// The placeholders `?1, ?2, ..., ?n`.
pub open spec fn placeholders(n: nat) -> Seq<char> {
    join(Seq::new(n, |i: int| "?"@ + dec_text((i + 1) as nat)), ", "@)
}

/// The assignments `"col" = ?3, ...` of an update, parameters from 3 on.
pub open spec fn set_clause(cols: Seq<Seq<char>>) -> Seq<char> {
    join(Seq::new(cols.len(), |i: int| quoted(cols[i]) + " = ?"@ + dec_text((i + 3) as nat)), ", "@)
}

fn quoted_string(c: &str, suffix: &str) -> (r: String)
    ensures
        r@ == quoted(c@) + suffix@,
{
    let mut r = String::new();
    crate::text::push_char(&mut r, '"');
    r.append(c);
    crate::text::push_char(&mut r, '"');
    r.append(suffix);
    assert(r@ =~= quoted(c@) + suffix@);
    r
}

fn quoted_columns(cols: &[String], suffix: &str) -> (r: Vec<String>)
    ensures
        views(r@) == views(cols@).map_values(|c: Seq<char>| quoted(c) + suffix@),
{
    let mut r: Vec<String> = Vec::new();
    let mut i: usize = 0;
    while i < cols.len()
        invariant
            i <= cols@.len(),
            views(r@) == views(cols@).map_values(|c: Seq<char>| quoted(c) + suffix@).take(i as int),
        decreases cols@.len() - i,
    {
        let q = quoted_string(cols[i].as_str(), suffix);
        let ghost before = r@;
        let ghost qv = q@;
        r.push(q);
        assert(views(r@) =~= views(before).push(qv));
        assert(views(r@) =~= views(cols@).map_values(|c: Seq<char>| quoted(c) + suffix@).take(i + 1));
        i = i + 1;
    }
    assert(views(cols@).map_values(|c: Seq<char>| quoted(c) + suffix@).take(cols@.len() as int)
        =~= views(cols@).map_values(|c: Seq<char>| quoted(c) + suffix@));
    r
}

/// The definitions of the data columns.
pub fn column_definitions(cols: &[String]) -> (r: String)
    ensures
        r@ == column_defs(views(cols@)),
{
    let parts = quoted_columns(cols, " TEXT");
    join_strings(&parts, ", ")
}

/// The quoted data column names.
pub fn column_names_list(cols: &[String]) -> (r: String)
    ensures
        r@ == column_list(views(cols@)),
{
    let parts = quoted_columns(cols, "");
    assert(views(cols@).map_values(|c: Seq<char>| quoted(c) + ""@) =~= views(cols@).map_values(|c: Seq<char>| quoted(c))) by {
        reveal_strlit("");
        assert forall|i: int| 0 <= i < cols@.len() implies quoted(views(cols@)[i]) + ""@ == quoted(views(cols@)[i]) by {
            assert(quoted(views(cols@)[i]) + ""@ =~= quoted(views(cols@)[i]));
        }
    }
    join_strings(&parts, ", ")
}

/// The placeholders `?1, ..., ?n`.
pub fn placeholder_list(n: usize) -> (r: String)
    ensures
        r@ == placeholders(n as nat),
{
    let ghost target = Seq::new(n as nat, |i: int| "?"@ + dec_text((i + 1) as nat));
    let mut parts: Vec<String> = Vec::new();
    let mut i: usize = 0;
    while i < n
        invariant
            i <= n,
            target == Seq::new(n as nat, |i: int| "?"@ + dec_text((i + 1) as nat)),
            views(parts@) == target.take(i as int),
        decreases n - i,
    {
        let mut p = "?".to_string();
        push_dec(&mut p, i as u64 + 1);
        let ghost before = parts@;
        let ghost pv = p@;
        parts.push(p);
        assert(views(parts@) =~= views(before).push(pv));
        assert(views(parts@) =~= target.take(i + 1));
        i = i + 1;
    }
    assert(target.take(n as int) =~= target);
    join_strings(&parts, ", ")
}

/// The assignments of an update.
pub fn set_clause_list(cols: &[String]) -> (r: String)
    requires
        cols@.len() + 3 <= u64::MAX,
    ensures
        r@ == set_clause(views(cols@)),
{
    let ghost cv = views(cols@);
    let ghost target = Seq::new(cv.len(), |i: int| quoted(cv[i]) + " = ?"@ + dec_text((i + 3) as nat));
    let mut parts: Vec<String> = Vec::new();
    let mut i: usize = 0;
    while i < cols.len()
        invariant
            i <= cols@.len(),
            cols@.len() + 3 <= u64::MAX,
            cv == views(cols@),
            target == Seq::new(cv.len(), |i: int| quoted(cv[i]) + " = ?"@ + dec_text((i + 3) as nat)),
            views(parts@) == target.take(i as int),
        decreases cols@.len() - i,
    {
        let mut p = quoted_string(cols[i].as_str(), " = ?");
        push_dec(&mut p, i as u64 + 3);
        let ghost before = parts@;
        let ghost pv = p@;
        parts.push(p);
        assert(views(parts@) =~= views(before).push(pv));
        assert(views(parts@) =~= target.take(i + 1));
        i = i + 1;
    }
    assert(target.take(cv.len() as int) =~= target);
    join_strings(&parts, ", ")
}

pub open spec fn meta_table_sql() -> Seq<char> {
    "CREATE TABLE IF NOT EXISTS _scribe_meta (\n                key TEXT PRIMARY KEY,\n                value TEXT\n            )"@
}

pub open spec fn commits_table_sql() -> Seq<char> {
    "CREATE TABLE IF NOT EXISTS commits (\n                hash TEXT PRIMARY KEY,\n                commit_at DATETIME NOT NULL\n            )"@
}

pub open spec fn items_table_sql(cols: Seq<Seq<char>>) -> Seq<char> {
    "CREATE TABLE IF NOT EXISTS items (\n                _item_pk TEXT PRIMARY KEY,\n                _last_commit_hash TEXT NOT NULL,\n                "@
        + column_defs(cols)
        + ",\n                FOREIGN KEY (_last_commit_hash) REFERENCES commits(hash)\n            )"@
}

pub open spec fn versions_table_sql(cols: Seq<Seq<char>>) -> Seq<char> {
    "CREATE TABLE IF NOT EXISTS item_versions (\n                _version_id INTEGER PRIMARY KEY AUTOINCREMENT,\n                _item_pk TEXT NOT NULL,\n                _commit_hash TEXT NOT NULL,\n                "@
        + column_defs(cols)
        + ",\n                FOREIGN KEY (_item_pk) REFERENCES items(_item_pk),\n                FOREIGN KEY (_commit_hash) REFERENCES commits(hash)\n            )"@
}

/// The statements that create the schema, in order.
pub open spec fn schema_sql(cols: Seq<Seq<char>>) -> Seq<Seq<char>> {
    seq![
        meta_table_sql(),
        commits_table_sql(),
        items_table_sql(cols),
        versions_table_sql(cols),
        "CREATE INDEX IF NOT EXISTS idx_items_last_commit\n             ON items(_last_commit_hash)"@,
        "CREATE INDEX IF NOT EXISTS idx_item_versions_pk\n             ON item_versions(_item_pk)"@,
        "CREATE INDEX IF NOT EXISTS idx_item_versions_commit\n             ON item_versions(_commit_hash)"@,
    ]
}

fn lit(s: &str) -> (r: String)
    ensures
        r@ == s@,
{
    s.to_string()
}

/// The statements that create the schema for the given data columns.
pub fn schema_statements(cols: &[String]) -> (r: Vec<String>)
    ensures
        views(r@) == schema_sql(views(cols@)),
{
    let defs = column_definitions(cols);
    let mut items = lit("CREATE TABLE IF NOT EXISTS items (\n                _item_pk TEXT PRIMARY KEY,\n                _last_commit_hash TEXT NOT NULL,\n                ");
    items.append(defs.as_str());
    items.append(",\n                FOREIGN KEY (_last_commit_hash) REFERENCES commits(hash)\n            )");
    let mut versions = lit("CREATE TABLE IF NOT EXISTS item_versions (\n                _version_id INTEGER PRIMARY KEY AUTOINCREMENT,\n                _item_pk TEXT NOT NULL,\n                _commit_hash TEXT NOT NULL,\n                ");
    versions.append(defs.as_str());
    versions.append(",\n                FOREIGN KEY (_item_pk) REFERENCES items(_item_pk),\n                FOREIGN KEY (_commit_hash) REFERENCES commits(hash)\n            )");
    let mut r: Vec<String> = Vec::new();
    r.push(lit("CREATE TABLE IF NOT EXISTS _scribe_meta (\n                key TEXT PRIMARY KEY,\n                value TEXT\n            )"));
    r.push(lit("CREATE TABLE IF NOT EXISTS commits (\n                hash TEXT PRIMARY KEY,\n                commit_at DATETIME NOT NULL\n            )"));
    r.push(items);
    r.push(versions);
    r.push(lit("CREATE INDEX IF NOT EXISTS idx_items_last_commit\n             ON items(_last_commit_hash)"));
    r.push(lit("CREATE INDEX IF NOT EXISTS idx_item_versions_pk\n             ON item_versions(_item_pk)"));
    r.push(lit("CREATE INDEX IF NOT EXISTS idx_item_versions_commit\n             ON item_versions(_commit_hash)"));
    assert(views(r@) =~= schema_sql(views(cols@)));
    r
}


pub open spec fn insert_item_sql(cols: Seq<Seq<char>>) -> Seq<char> {
    "INSERT INTO items (_item_pk, _last_commit_hash, "@ + column_list(cols) + ") VALUES ("@
        + placeholders(cols.len() + 2) + ")"@
}

pub open spec fn insert_version_sql(cols: Seq<Seq<char>>) -> Seq<char> {
    "INSERT INTO item_versions (_item_pk, _commit_hash, "@ + column_list(cols) + ") VALUES ("@
        + placeholders(cols.len() + 2) + ")"@
}

pub open spec fn update_item_sql(cols: Seq<Seq<char>>) -> Seq<char> {
    "UPDATE items SET _last_commit_hash = ?1, "@ + set_clause(cols) + " WHERE _item_pk = ?2"@
}

pub open spec fn insert_commit_sql() -> Seq<char> {
    "INSERT OR IGNORE INTO commits (hash, commit_at) VALUES (?1, ?2)"@
}

pub open spec fn set_meta_sql() -> Seq<char> {
    "INSERT OR REPLACE INTO _scribe_meta (key, value) VALUES ('last_processed_commit', ?1)"@
}

/// The text stored for a column of an item: its value's JSON text, or
/// `null` where the item lacks the column.
pub open spec fn stored_value(m: Map<Seq<char>, Seq<char>>, col: Seq<char>) -> Seq<char> {
    if m.contains_key(col) { m[col] } else { "null"@ }
}

/// The texts stored for the columns of an item, in column order.
pub open spec fn row_values(cols: Seq<Seq<char>>, m: Map<Seq<char>, Seq<char>>) -> Seq<Seq<char>> {
    cols.map_values(|c: Seq<char>| stored_value(m, c))
}

/// A parameter as SQLite receives it.
pub enum ParamView {
    Text(Seq<char>),
    UnixTime(int),
}

pub open spec fn param_view(p: SqlParam) -> ParamView {
    match p {
        SqlParam::Text(t) => ParamView::Text(t@),
        SqlParam::UnixTime(s) => ParamView::UnixTime(s as int),
    }
}

pub open spec fn params_view(ps: Seq<SqlParam>) -> Seq<ParamView> {
    ps.map_values(|p: SqlParam| param_view(p))
}

/// Texts bound as parameters.
pub open spec fn texts(ts: Seq<Seq<char>>) -> Seq<ParamView> {
    ts.map_values(|t: Seq<char>| ParamView::Text(t))
}

/// A statement that SQLite accepted, with the parameters bound to it.
pub struct Sent {
    pub sql: Seq<char>,
    pub params: Seq<ParamView>,
}

pub open spec fn sent_of(sql: Seq<char>, params: Seq<ParamView>) -> Sent {
    Sent { sql, params }
}

/// The schema statements, which take no parameters.
pub open spec fn schema_sent(cols: Seq<Seq<char>>) -> Seq<Sent> {
    schema_sql(cols).map_values(|q: Seq<char>| sent_of(q, Seq::empty()))
}

/// `after` is `before` and the first few schema statements, not all of them.
pub open spec fn sent_schema_prefix(before: Seq<Sent>, after: Seq<Sent>, cols: Seq<Seq<char>>) -> bool {
    exists|k: int| 0 <= k < schema_sent(cols).len() && after == before + #[trigger] schema_sent(cols).take(k)
}

/// Recording a commit with its time.
pub open spec fn commit_sent(hash: Seq<char>, commit_at: int) -> Sent {
    sent_of(insert_commit_sql(), seq![ParamView::Text(hash), ParamView::UnixTime(commit_at)])
}

/// A commit's row is written with the commit's own time: the statement
/// binds the hash and then the timestamp passed in, so commits at different
/// times send different statements.
pub proof fn law_commit_row_binds_its_time(hash: Seq<char>, t: int, u: int)
    ensures
        commit_sent(hash, t).params.len() == 2,
        commit_sent(hash, t).params[0] == ParamView::Text(hash),
        commit_sent(hash, t).params[1] == ParamView::UnixTime(t),
        t != u ==> commit_sent(hash, t) != commit_sent(hash, u),
{
    if t != u {
        assert(commit_sent(hash, t).params[1] != commit_sent(hash, u).params[1]);
    }
}

/// Recording the last processed commit.
pub open spec fn meta_sent(hash: Seq<char>) -> Sent {
    sent_of(set_meta_sql(), seq![ParamView::Text(hash)])
}

/// Inserting a new item: its key, the commit, and the stored text of each column.
pub open spec fn insert_item_sent(cols: Seq<Seq<char>>, pk: Seq<char>, hash: Seq<char>, m: Map<Seq<char>, Seq<char>>) -> Sent {
    sent_of(insert_item_sql(cols), texts(seq![pk, hash] + row_values(cols, m)))
}

/// Updating an item: the commit, its key, and the stored text of each column.
pub open spec fn update_item_sent(cols: Seq<Seq<char>>, pk: Seq<char>, hash: Seq<char>, m: Map<Seq<char>, Seq<char>>) -> Sent {
    sent_of(update_item_sql(cols), texts(seq![hash, pk] + row_values(cols, m)))
}

/// Inserting a version of an item: its key, the commit, and the stored text of each column.
pub open spec fn insert_version_sent(cols: Seq<Seq<char>>, pk: Seq<char>, hash: Seq<char>, m: Map<Seq<char>, Seq<char>>) -> Sent {
    sent_of(insert_version_sql(cols), texts(seq![pk, hash] + row_values(cols, m)))
}

/// The statement inserting a new item.
pub fn insert_item_statement(cols: &[String]) -> (r: String)
    requires
        cols@.len() + 3 <= usize::MAX,
    ensures
        r@ == insert_item_sql(views(cols@)),
{
    let mut r = lit("INSERT INTO items (_item_pk, _last_commit_hash, ");
    r.append(column_names_list(cols).as_str());
    r.append(") VALUES (");
    r.append(placeholder_list(cols.len() + 2).as_str());
    r.append(")");
    r
}

/// The statement inserting a version of an item.
pub fn insert_version_statement(cols: &[String]) -> (r: String)
    requires
        cols@.len() + 3 <= usize::MAX,
    ensures
        r@ == insert_version_sql(views(cols@)),
{
    let mut r = lit("INSERT INTO item_versions (_item_pk, _commit_hash, ");
    r.append(column_names_list(cols).as_str());
    r.append(") VALUES (");
    r.append(placeholder_list(cols.len() + 2).as_str());
    r.append(")");
    r
}

/// The statement updating an item.
pub fn update_item_statement(cols: &[String]) -> (r: String)
    requires
        cols@.len() + 3 <= usize::MAX,
    ensures
        r@ == update_item_sql(views(cols@)),
{
    let mut r = lit("UPDATE items SET _last_commit_hash = ?1, ");
    r.append(set_clause_list(cols).as_str());
    r.append(" WHERE _item_pk = ?2");
    r
}

/// The parameters of an item statement: the two given texts, then the
/// stored text of each column.
pub fn item_params(first: &str, second: &str, cols: &[String], item: &Item) -> (ps: Vec<SqlParam>)
    requires
        item.wf(),
    ensures
        params_view(ps@) == texts(seq![first@, second@] + row_values(views(cols@), item@)),
{
    let ghost target = seq![first@, second@] + row_values(views(cols@), item@);
    let mut ps: Vec<SqlParam> = Vec::new();
    ps.push(SqlParam::Text(first.to_string()));
    ps.push(SqlParam::Text(second.to_string()));
    let mut i: usize = 0;
    while i < cols.len()
        invariant
            i <= cols@.len(),
            item.wf(),
            target == seq![first@, second@] + row_values(views(cols@), item@),
            ps@.len() == i + 2,
            forall|j: int| 0 <= j < i + 2 ==> #[trigger] param_view(ps@[j]) == ParamView::Text(target[j]),
        decreases cols@.len() - i,
    {
        let v = match item.get(cols[i].as_str()) {
            Some(v) => v.as_text().to_string(),
            None => lit("null"),
        };
        assert(v@ == target[i + 2]);
        ps.push(SqlParam::Text(v));
        i = i + 1;
    }
    assert(params_view(ps@) =~= texts(target));
    ps
}

/// The column names of a query that name data: those not starting with `_`.
pub open spec fn is_data_column(name: Seq<char>) -> bool {
    !(name.len() > 0 && name[0] == '_')
}

pub open spec fn data_columns_of(names: Seq<Seq<char>>) -> Seq<Seq<char>>
    decreases names.len(),
{
    if names.len() == 0 {
        Seq::empty()
    } else if is_data_column(names.last()) {
        data_columns_of(names.drop_last()).push(names.last())
    } else {
        data_columns_of(names.drop_last())
    }
}

fn is_data_name(name: &str) -> (b: bool)
    ensures
        b == is_data_column(name@),
{
    !(name.unicode_len() > 0 && name.get_char(0) == '_')
}

/// The data column names among the names of a query's columns, in order.
pub fn data_columns(names: &Vec<String>) -> (r: Vec<String>)
    ensures
        views(r@) == data_columns_of(views(names@)),
{
    let ghost nv = views(names@);
    let mut r: Vec<String> = Vec::new();
    let mut i: usize = 0;
    while i < names.len()
        invariant
            i <= names@.len(),
            nv == views(names@),
            views(r@) == data_columns_of(nv.take(i as int)),
        decreases names@.len() - i,
    {
        assert(nv.take(i + 1).drop_last() =~= nv.take(i as int));
        if is_data_name(names[i].as_str()) {
            let ghost before = r@;
            r.push(names[i].clone());
            assert(views(r@) =~= views(before).push(nv[i as int]));
        }
        i = i + 1;
    }
    assert(nv.take(names@.len() as int) =~= nv);
    r
}

/// The JSON text of a value read back from the database: the value it holds
/// if it is JSON, else the text as a string.
pub open spec fn read_back(t: Seq<char>) -> Seq<char> {
    match spec_json_canonical(t) {
        Some(c) => c,
        None => string_text(t),
    }
}

/// The entries of the item in a row: each data column with a readable value.
pub open spec fn row_entries(names: Seq<Seq<char>>, row: Seq<Option<Seq<char>>>, n: nat) -> Seq<(Seq<char>, Seq<char>)>
    decreases n,
{
    if n == 0 {
        Seq::empty()
    } else {
        let prev = row_entries(names, row, (n - 1) as nat);
        let p = n - 1;
        if is_data_column(names[p]) && row[p] is Some {
            prev.push((names[p], read_back(row[p]->0)))
        } else {
            prev
        }
    }
}

/// A row of the state query: the item's key first, one field per column.
pub open spec fn row_ok(names: Seq<Seq<char>>, row: Seq<Option<Seq<char>>>) -> bool {
    row.len() == names.len() && row.len() > 0 && row[0] is Some
}

/// The state that rows give: each row's key mapped to the content hash of
/// the item read from it, a later row replacing an earlier one.
pub open spec fn rows_state(names: Seq<Seq<char>>, rows: Seq<Seq<Option<Seq<char>>>>) -> Map<Seq<char>, Seq<char>>
    decreases rows.len(),
{
    if rows.len() == 0 {
        Map::empty()
    } else {
        let r = rows.last();
        rows_state(names, rows.drop_last()).insert(
            r[0]->0,
            content_hash_of(map_from_entries(row_entries(names, r, names.len()))),
        )
    }
}

pub open spec fn row_view(r: Seq<Option<String>>) -> Seq<Option<Seq<char>>> {
    r.map_values(|o: Option<String>| match o { Some(t) => Some(t@), None => None })
}

pub open spec fn rows_view(rows: Seq<Vec<Option<String>>>) -> Seq<Seq<Option<Seq<char>>>> {
    rows.map_values(|r: Vec<Option<String>>| row_view(r@))
}

/// The item stored in one row.
fn row_item(names: &Vec<String>, row: &Vec<Option<String>>) -> (item: Item)
    requires
        row@.len() == names@.len(),
    ensures
        item.wf(),
        item@ == map_from_entries(row_entries(views(names@), row_view(row@), names@.len() as nat)),
{
    let ghost nv = views(names@);
    let ghost rv = row_view(row@);
    let mut entries: Vec<(String, JsonValue)> = Vec::new();
    let mut p: usize = 0;
    while p < names.len()
        invariant
            p <= names@.len(),
            row@.len() == names@.len(),
            nv == views(names@),
            rv == row_view(row@),
            entries@.map_values(|e: (String, JsonValue)| (e.0@, e.1@)) == row_entries(nv, rv, p as nat),
        decreases names@.len() - p,
    {
        if is_data_name(names[p].as_str()) {
            match &row[p] {
                Some(t) => {
                    let v = match json_canonical(t.as_str()) {
                        Some(c) => JsonValue::from_text(c),
                        None => JsonValue::string(t.as_str()),
                    };
                    let ghost before = entries@;
                    let ghost ev = (names[p as int]@, v@);
                    entries.push((names[p].clone(), v));
                    assert(entries@.map_values(|e: (String, JsonValue)| (e.0@, e.1@))
                        =~= before.map_values(|e: (String, JsonValue)| (e.0@, e.1@)).push(ev));
                },
                None => {},
            }
        }
        p = p + 1;
    }
    Item::from_entries(&entries)
}

/// The state that the rows of the state query give: for each row, its key
/// mapped to the content hash of the item read from its data columns.
pub fn state_from_rows(names: &Vec<String>, rows: &Vec<Vec<Option<String>>>) -> (r: Result<StringHashMap<String>, ScribeError>)
    ensures
        match r {
            Ok(state) => (forall|i: int| 0 <= i < rows@.len() ==> row_ok(views(names@), #[trigger] rows_view(rows@)[i]))
                && state@.map_values(|v: String| v@) == rows_state(views(names@), rows_view(rows@)),
            Err(e) => e@ is Database && exists|i: int| 0 <= i < rows@.len() && !row_ok(views(names@), #[trigger] rows_view(rows@)[i]),
        },
{
    let ghost nv = views(names@);
    let ghost rv = rows_view(rows@);
    let mut state = StringHashMap::<String>::new();
    let mut i: usize = 0;
    assert(state@.map_values(|v: String| v@) =~= rows_state(nv, rv.take(0)));
    while i < rows.len()
        invariant
            i <= rows@.len(),
            nv == views(names@),
            rv == rows_view(rows@),
            forall|j: int| 0 <= j < i ==> row_ok(nv, #[trigger] rv[j]),
            state@.map_values(|v: String| v@) == rows_state(nv, rv.take(i as int)),
        decreases rows@.len() - i,
    {
        let row = &rows[i];
        assert(rv[i as int] == row_view(row@));
        if row.len() != names.len() || row.len() == 0 {
            return Err(ScribeError::Database { message: lit("malformed row in items") });
        }
        let pk = match &row[0] {
            Some(pk) => pk,
            None => return Err(ScribeError::Database { message: lit("item without a key in items") }),
        };
        let item = row_item(names, row);
        let h = compute_content_hash(&item);
        let ghost before = state@;
        state.insert(pk.clone(), h);
        assert(rv.take(i + 1).drop_last() =~= rv.take(i as int));
        assert(state@.map_values(|v: String| v@) =~= before.map_values(|v: String| v@).insert(pk@, h@));
        i = i + 1;
    }
    assert(rv.take(rows@.len() as int) =~= rv);
    Ok(state)
}


/// The database error, as an error of the library.
fn db_error(message: String) -> (e: ScribeError)
    ensures
        e@ == (crate::error::ErrorView::Database { message: message@ }),
{
    ScribeError::Database { message }
}

/// The error of a failed database operation.
pub open spec fn is_db_error<T>(r: Result<T, ScribeError>) -> bool {
    r matches Err(e) ==> e@ is Database
}

pub open spec fn meta_count_sql() -> Seq<char> {
    "SELECT COUNT(*) FROM sqlite_master WHERE type='table' AND name='_scribe_meta'"@
}

pub open spec fn meta_value_sql() -> Seq<char> {
    "SELECT value FROM _scribe_meta WHERE key = 'last_processed_commit'"@
}

pub open spec fn items_probe_sql() -> Seq<char> {
    "SELECT * FROM items LIMIT 0"@
}

pub open spec fn items_columns_sql() -> Seq<char> {
    "SELECT name FROM pragma_table_info('items')"@
}

pub open spec fn items_rows_sql() -> Seq<char> {
    "SELECT _item_pk, * FROM items"@
}

/// The last processed commit that an answer of the metadata query gives.
pub open spec fn last_commit_of(v: Result<Option<Seq<char>>, Seq<char>>) -> Result<Option<Seq<char>>, ErrorView> {
    match v {
        Ok(o) => Ok(o),
        Err(m) => Err(ErrorView::Database { message: m }),
    }
}

pub open spec fn opt_result_view(r: Result<Option<String>, ScribeError>) -> Result<Option<Seq<char>>, ErrorView> {
    match r {
        Ok(Some(t)) => Ok(Some(t@)),
        Ok(None) => Ok(None),
        Err(e) => Err(e@),
    }
}

/// Each row of a column-name query holds a readable name first.
pub open spec fn names_ok(rows: Seq<Seq<Option<Seq<char>>>>) -> bool {
    forall|i: int| 0 <= i < rows.len() ==> (#[trigger] rows[i]).len() > 0 && rows[i][0] is Some
}

/// The names in the rows of a column-name query.
pub open spec fn names_of(rows: Seq<Seq<Option<Seq<char>>>>) -> Seq<Seq<char>> {
    rows.map_values(|r: Seq<Option<Seq<char>>>| r[0]->0)
}

/// The state stored in the database: for the column names and the rows that
/// SQLite gave, each row's key mapped to the content hash of its item.
pub open spec fn stored_state(m: Map<Seq<char>, Seq<char>>) -> bool {
    exists|nrows: Seq<Seq<Option<Seq<char>>>>, rows: Seq<Seq<Option<Seq<char>>>>|
        #![trigger rows_answer(items_columns_sql(), nrows), rows_answer(items_rows_sql(), rows)]
        rows_answer(items_columns_sql(), nrows) && names_ok(nrows) && rows_answer(items_rows_sql(), rows)
            && m == rows_state(seq!["_item_pk"@] + names_of(nrows), rows)
}

/// The names in the rows of a column-name query, if each row holds one.
fn names_from_rows(rows: &Vec<Vec<Option<String>>>) -> (r: Option<Vec<String>>)
    ensures
        match r {
            Some(v) => names_ok(rows_view(rows@)) && views(v@) == names_of(rows_view(rows@)),
            None => !names_ok(rows_view(rows@)),
        },
{
    let ghost rv = rows_view(rows@);
    let mut v: Vec<String> = Vec::new();
    let mut i: usize = 0;
    while i < rows.len()
        invariant
            i <= rows@.len(),
            rv == rows_view(rows@),
            forall|j: int| 0 <= j < i ==> (#[trigger] rv[j]).len() > 0 && rv[j][0] is Some,
            views(v@) == names_of(rv.take(i as int)),
        decreases rows@.len() - i,
    {
        let row = &rows[i];
        assert(rv[i as int] == row_view(row@));
        if row.len() == 0 {
            return None;
        }
        match &row[0] {
            Some(name) => {
                let ghost before = v@;
                v.push(name.clone());
                assert(rv[i as int][0] == Some(name@));
                assert(rv.take(i + 1) =~= rv.take(i as int).push(rv[i as int]));
                assert(names_of(rv.take(i + 1)) =~= names_of(rv.take(i as int)).push(name@));
                assert(views(v@) =~= views(before).push(name@));
            },
            None => return None,
        }
        i = i + 1;
    }
    assert(rv.take(rows@.len() as int) =~= rv);
    Some(v)
}

/// The SQLite database of a tracked file's history.
pub struct Database {
    conn: rusqlite::Connection,
    sent: Ghost<Seq<Sent>>,
}

/// A transaction on the database.
pub struct Tx<'conn> {
    tx: rusqlite::Transaction<'conn>,
    sent: Ghost<Seq<Sent>>,
}

impl<'conn> Tx<'conn> {
    /// The statements that SQLite accepted within the transaction, in order.
    pub closed spec fn sent(&self) -> Seq<Sent> {
        self.sent@
    }

    /// Runs one statement within the transaction.
    fn run(&mut self, sql: &str, params: &Vec<SqlParam>) -> (r: Result<(), ScribeError>)
        ensures
            match r {
                Ok(()) => final(self).sent() == old(self).sent().push(sent_of(sql@, params_view(params@))),
                Err(e) => e@ is Database && final(self).sent() == old(self).sent(),
            },
    {
        match execute(tx_connection(&self.tx), sql, params) {
            Ok(_) => {
                self.sent = Ghost(self.sent@.push(sent_of(sql@, params_view(params@))));
                Ok(())
            },
            Err(m) => Err(db_error(m)),
        }
    }

    /// Update the last processed commit within the transaction.
    pub fn set_last_processed_commit(&mut self, hash: &str) -> (r: Result<(), ScribeError>)
        ensures
            match r {
                Ok(()) => final(self).sent() == old(self).sent().push(meta_sent(hash@)),
                Err(e) => e@ is Database && final(self).sent() == old(self).sent(),
            },
    {
        let mut params: Vec<SqlParam> = Vec::new();
        params.push(SqlParam::Text(hash.to_string()));
        assert(params_view(params@) =~= seq![ParamView::Text(hash@)]);
        self.run("INSERT OR REPLACE INTO _scribe_meta (key, value) VALUES ('last_processed_commit', ?1)", &params)
    }

    /// Commit the transaction: everything in `sent` takes effect together.
    /// The statements come back as a `Committed` record for the database.
    pub fn commit(self) -> (r: Result<Committed, ScribeError>)
        ensures
            match r {
                Ok(c) => c.statements() == self.sent(),
                Err(e) => e@ is Database,
            },
    {
        let ghost statements = self.sent@;
        match commit_transaction(self.tx) {
            Ok(()) => Ok(Committed { statements: Ghost(statements) }),
            Err(m) => Err(db_error(m)),
        }
    }
}

/// The statements of a transaction that was committed; only `Tx::commit`
/// makes one.
pub struct Committed {
    statements: Ghost<Seq<Sent>>,
}

impl Committed {
    pub closed spec fn statements(&self) -> Seq<Sent> {
        self.statements@
    }
}

impl Database {
    /// The statements that took effect through this value, in order: those
    /// SQLite accepted outside transactions, and the statements of each
    /// committed transaction handed to `record_committed`.
    pub closed spec fn sent(&self) -> Seq<Sent> {
        self.sent@
    }

    /// Adds a committed transaction's statements to `sent`.
    pub fn record_committed(&mut self, c: Committed)
        ensures
            final(self).sent() == old(self).sent() + c.statements(),
    {
        self.sent = Ghost(self.sent@ + c.statements@);
    }

    /// Runs one statement outside any transaction.
    fn run(&mut self, sql: &str, params: &Vec<SqlParam>) -> (r: Result<(), ScribeError>)
        ensures
            match r {
                Ok(()) => final(self).sent() == old(self).sent().push(sent_of(sql@, params_view(params@))),
                Err(e) => e@ is Database && final(self).sent() == old(self).sent(),
            },
    {
        match execute(&self.conn, sql, params) {
            Ok(_) => {
                self.sent = Ghost(self.sent@.push(sent_of(sql@, params_view(params@))));
                Ok(())
            },
            Err(m) => Err(db_error(m)),
        }
    }

    /// Open or create a database at the given path.
    pub fn open(path: &str) -> (r: Result<Database, ScribeError>)
        ensures
            is_db_error(r),
            r matches Ok(db) ==> db.sent().len() == 0,
    {
        match open_connection(path) {
            Ok(conn) => Ok(Database { conn, sent: Ghost(Seq::empty()) }),
            Err(m) => Err(db_error(m)),
        }
    }

    /// Initialize the database schema: runs the statements of
    /// `schema_statements` in order, stopping at the first that fails.
    pub fn init_schema(&mut self, columns: &[String]) -> (r: Result<(), ScribeError>)
        ensures
            match r {
                Ok(()) => final(self).sent() == old(self).sent() + schema_sent(views(columns@)),
                Err(e) => e@ is Database && sent_schema_prefix(old(self).sent(), final(self).sent(), views(columns@)),
            },
    {
        let statements = schema_statements(columns);
        let ghost all = schema_sent(views(columns@));
        let ghost start = self.sent();
        let no_params: Vec<SqlParam> = Vec::new();
        assert(params_view(no_params@) =~= Seq::<ParamView>::empty());
        let mut i: usize = 0;
        while i < statements.len()
            invariant
                i <= statements@.len(),
                views(statements@) == schema_sql(views(columns@)),
                all == schema_sent(views(columns@)),
                all.len() == statements@.len(),
                params_view(no_params@) == Seq::<ParamView>::empty(),
                start == old(self).sent(),
                self.sent() == start + all.take(i as int),
            decreases statements@.len() - i,
        {
            assert(views(statements@)[i as int] == statements@[i as int]@);
            assert(all[i as int] == sent_of(statements@[i as int]@, params_view(no_params@)));
            match self.run(statements[i].as_str(), &no_params) {
                Ok(()) => {},
                Err(e) => {
                    assert(self.sent() == start + all.take(i as int));
                    assert(sent_schema_prefix(start, self.sent(), views(columns@)));
                    return Err(e);
                },
            }
            assert(all.take(i + 1) =~= all.take(i as int).push(all[i as int]));
            assert(self.sent() =~= start + all.take(i + 1));
            i = i + 1;
        }
        assert(all.take(all.len() as int) =~= all);
        Ok(())
    }

    /// Get the last processed commit hash from metadata: the answer of the
    /// metadata query, or `None` where the metadata table is not there (or
    /// its existence cannot be checked).
    pub fn get_last_processed_commit(&self) -> (r: Result<Option<String>, ScribeError>)
        ensures
            exists|c: Option<int>| #[trigger] count_answer(meta_count_sql(), c) && if c is Some && c->0 > 0 {
                exists|v: Result<Option<Seq<char>>, Seq<char>>| #[trigger] text_answer(meta_value_sql(), v)
                    && opt_result_view(r) == last_commit_of(v)
            } else {
                r matches Ok(None)
            },
    {
        let count = query_integer(
            &self.conn,
            "SELECT COUNT(*) FROM sqlite_master WHERE type='table' AND name='_scribe_meta'",
        );
        let ghost c = count_view(count);
        let table_exists = match count {
            Ok(n) => n > 0,
            Err(_) => false,
        };
        if !table_exists {
            assert(count_answer(meta_count_sql(), c));
            return Ok(None);
        }
        let answer = query_optional_text(&self.conn, "SELECT value FROM _scribe_meta WHERE key = 'last_processed_commit'");
        let ghost v = text_view(answer);
        let r = match answer {
            Ok(v) => Ok(v),
            Err(m) => Err(db_error(m)),
        };
        assert(text_answer(meta_value_sql(), v) && opt_result_view(r) == last_commit_of(v));
        assert(count_answer(meta_count_sql(), c));
        r
    }

    /// Set the last processed commit hash in metadata.
    pub fn set_last_processed_commit(&mut self, hash: &str) -> (r: Result<(), ScribeError>)
        ensures
            match r {
                Ok(()) => final(self).sent() == old(self).sent().push(meta_sent(hash@)),
                Err(e) => e@ is Database && final(self).sent() == old(self).sent(),
            },
    {
        let mut params: Vec<SqlParam> = Vec::new();
        params.push(SqlParam::Text(hash.to_string()));
        assert(params_view(params@) =~= seq![ParamView::Text(hash@)]);
        self.run("INSERT OR REPLACE INTO _scribe_meta (key, value) VALUES ('last_processed_commit', ?1)", &params)
    }

    /// Get all column names from the items table, except those starting with
    /// `_`.  The table is probed first, so that a missing table is an error;
    /// the names are then read from `pragma_table_info`.
    pub fn get_data_columns(&self) -> (r: Result<Vec<String>, ScribeError>)
        ensures
            is_db_error(r),
            r matches Ok(cols) ==> exists|probe: Seq<Seq<Option<Seq<char>>>>, nrows: Seq<Seq<Option<Seq<char>>>>|
                #![trigger rows_answer(items_probe_sql(), probe), rows_answer(items_columns_sql(), nrows)]
                rows_answer(items_probe_sql(), probe) && rows_answer(items_columns_sql(), nrows)
                && names_ok(nrows) && views(cols@) == data_columns_of(names_of(nrows)),
            r matches Ok(cols) ==> forall|i: int| 0 <= i < cols@.len() ==> is_data_column(#[trigger] cols@[i]@),
    {
        let probe = match query_text_rows(&self.conn, "SELECT * FROM items LIMIT 0") {
            Ok(p) => p,
            Err(m) => return Err(db_error(m)),
        };
        let nrows = match query_text_rows(&self.conn, "SELECT name FROM pragma_table_info('items')") {
            Ok(n) => n,
            Err(m) => return Err(db_error(m)),
        };
        let names = match names_from_rows(&nrows) {
            Some(n) => n,
            None => return Err(db_error(lit("unreadable column name in items"))),
        };
        let cols = data_columns(&names);
        proof {
            lemma_data_columns_are_data(views(names@));
            assert forall|i: int| 0 <= i < cols@.len() implies is_data_column(#[trigger] cols@[i]@) by {
                assert(views(cols@)[i] == cols@[i]@);
            }
            assert(rows_answer(items_probe_sql(), rows_view(probe@)) && rows_answer(items_columns_sql(), rows_view(nrows@)));
        }
        Ok(cols)
    }

    /// Begin a transaction.
    pub fn begin_transaction(&mut self) -> (r: Result<Tx<'_>, ScribeError>)
        ensures
            is_db_error(r),
            r matches Ok(tx) ==> tx.sent().len() == 0,
            final(self).sent() == old(self).sent(),
    {
        match begin(&mut self.conn) {
            Ok(tx) => Ok(Tx { tx, sent: Ghost(Seq::empty()) }),
            Err(m) => Err(db_error(m)),
        }
    }

    /// Insert a commit record (kept if the commit is already there).
    pub fn insert_commit(tx: &mut Tx<'_>, hash: &str, commit_at: i64) -> (r: Result<(), ScribeError>)
        ensures
            match r {
                Ok(()) => final(tx).sent() == old(tx).sent().push(commit_sent(hash@, commit_at as int)),
                Err(e) => e@ is Database && final(tx).sent() == old(tx).sent(),
            },
    {
        let mut params: Vec<SqlParam> = Vec::new();
        params.push(SqlParam::Text(hash.to_string()));
        params.push(SqlParam::UnixTime(commit_at));
        assert(params_view(params@) =~= seq![ParamView::Text(hash@), ParamView::UnixTime(commit_at as int)]);
        tx.run("INSERT OR IGNORE INTO commits (hash, commit_at) VALUES (?1, ?2)", &params)
    }

    /// Insert a new item: its key, the commit, and its value for each column.
    pub fn insert_item(
        tx: &mut Tx<'_>,
        item_pk: &str,
        commit_hash: &str,
        columns: &[String],
        item: &Item,
    ) -> (r: Result<(), ScribeError>)
        requires
            item.wf(),
            columns@.len() + 3 <= usize::MAX,
        ensures
            match r {
                Ok(()) => final(tx).sent() == old(tx).sent().push(insert_item_sent(views(columns@), item_pk@, commit_hash@, item@)),
                Err(e) => e@ is Database && final(tx).sent() == old(tx).sent(),
            },
    {
        let sql = insert_item_statement(columns);
        let params = item_params(item_pk, commit_hash, columns, item);
        tx.run(sql.as_str(), &params)
    }

    /// Update an existing item: its last commit and its value for each column.
    pub fn update_item(
        tx: &mut Tx<'_>,
        item_pk: &str,
        commit_hash: &str,
        columns: &[String],
        item: &Item,
    ) -> (r: Result<(), ScribeError>)
        requires
            item.wf(),
            columns@.len() + 3 <= usize::MAX,
        ensures
            match r {
                Ok(()) => final(tx).sent() == old(tx).sent().push(update_item_sent(views(columns@), item_pk@, commit_hash@, item@)),
                Err(e) => e@ is Database && final(tx).sent() == old(tx).sent(),
            },
    {
        let sql = update_item_statement(columns);
        let params = item_params(commit_hash, item_pk, columns, item);
        tx.run(sql.as_str(), &params)
    }

    /// Insert a new version of an item.
    pub fn insert_item_version(
        tx: &mut Tx<'_>,
        item_pk: &str,
        commit_hash: &str,
        columns: &[String],
        item: &Item,
    ) -> (r: Result<(), ScribeError>)
        requires
            item.wf(),
            columns@.len() + 3 <= usize::MAX,
        ensures
            match r {
                Ok(()) => final(tx).sent() == old(tx).sent().push(insert_version_sent(views(columns@), item_pk@, commit_hash@, item@)),
                Err(e) => e@ is Database && final(tx).sent() == old(tx).sent(),
            },
    {
        let sql = insert_version_statement(columns);
        let params = item_params(item_pk, commit_hash, columns, item);
        tx.run(sql.as_str(), &params)
    }

    /// Load the current state of items from the database: each item's key
    /// mapped to the content hash of its stored columns, the column names read
    /// from `pragma_table_info` and the rows from the items table.
    pub fn load_current_state(&self) -> (r: Result<StringHashMap<String>, ScribeError>)
        ensures
            is_db_error(r),
            r matches Ok(state) ==> stored_state(state@.map_values(|v: String| v@)),
    {
        let nrows = match query_text_rows(&self.conn, "SELECT name FROM pragma_table_info('items')") {
            Ok(n) => n,
            Err(m) => return Err(db_error(m)),
        };
        let table_names = match names_from_rows(&nrows) {
            Some(n) => n,
            None => return Err(db_error(lit("unreadable column name in items"))),
        };
        let rows = match query_text_rows(&self.conn, "SELECT _item_pk, * FROM items") {
            Ok(rows) => rows,
            Err(m) => return Err(db_error(m)),
        };
        let mut names: Vec<String> = Vec::new();
        names.push(lit("_item_pk"));
        let mut i: usize = 0;
        while i < table_names.len()
            invariant
                i <= table_names@.len(),
                views(names@) == seq!["_item_pk"@] + views(table_names@).take(i as int),
            decreases table_names@.len() - i,
        {
            let ghost before = names@;
            names.push(table_names[i].clone());
            assert(views(names@) =~= views(before).push(table_names@[i as int]@));
            assert(views(table_names@).take(i + 1) =~= views(table_names@).take(i as int).push(table_names@[i as int]@));
            i = i + 1;
        }
        assert(views(table_names@).take(table_names@.len() as int) =~= views(table_names@));
        let r = state_from_rows(&names, &rows);
        proof {
            if r is Ok {
                assert(rows_answer(items_columns_sql(), rows_view(nrows@)) && rows_answer(items_rows_sql(), rows_view(rows@)));
            }
        }
        r
    }
}

proof fn lemma_data_columns_are_data(names: Seq<Seq<char>>)
    ensures
        forall|i: int| 0 <= i < data_columns_of(names).len() ==> is_data_column(#[trigger] data_columns_of(names)[i]),
    decreases names.len(),
{
    if names.len() > 0 {
        let prev = data_columns_of(names.drop_last());
        lemma_data_columns_are_data(names.drop_last());
        assert forall|i: int| 0 <= i < data_columns_of(names).len() implies is_data_column(#[trigger] data_columns_of(names)[i]) by {
            if i < prev.len() {
                assert(data_columns_of(names)[i] == prev[i]);
            }
        }
    }
}

} // verus!
