//! Turning the write statements into log records.
use vstd::prelude::*;
use crate::condition::conditions_view;
use crate::database::{lemma_table_replaced, write_result, Database, DatabaseView};
use crate::table::TableView;
use crate::outcome::ExecutionResult;
use crate::sql::{
    CreateIndexStmt, DeleteStmt, FromSource, InsertRows, InsertStmt, Literal, SqlExpr, Stmt, UpdateStmt,
};
use crate::text::{copy_strings, position};
use crate::value::{is_value_order, Order};
use crate::wal::{apply_error, applied, RecordView, WalRecord};
use crate::where_clause::{conditions_error, conditions_of, extract_conditions};

verus! {

broadcast use vstd::string::group_string_axioms;

/// The record a CREATE statement asks for: a table with its column names,
/// or an index on the first column listed.
pub open spec fn create_record_of(stmt: Stmt) -> Option<RecordView> {
    match stmt {
        Stmt::NewTable(c) => Some(RecordView::CreateTable { name: c.name@, columns: c.columns.deep_view() }),
        Stmt::NewIndex(c) => {
            if c.columns@.len() == 0 {
                None
            } else {
                Some(
                    RecordView::CreateIndex {
                        table: c.table_name@,
                        index_name: c.name->0@,
                        column: c.columns@[0]@,
                    },
                )
            }
        },
        _ => None,
    }
}

/// The text of the error reading a CREATE statement gives, where it
/// gives one.
pub open spec fn create_error(stmt: Stmt) -> Seq<char> {
    match stmt {
        Stmt::NewIndex(c) => if c.name is None {
            "CREATE INDEX 必须有索引名"@
        } else {
            "No column specified for index"@
        },
        _ => "Unsupported CREATE statement"@,
    }
}

/// Turns CREATE TABLE or CREATE INDEX into its log record. An index with no
/// column, or another statement, is an error.
pub fn make_create_record(statement: &Stmt) -> (r: Result<WalRecord, String>)
    requires
        statement matches Stmt::NewIndex(c) ==> c.name is Some,
    ensures
        match r {
            Ok(rec) => create_record_of(*statement) == Some(rec@),
            Err(e) => create_record_of(*statement) is None && e@ == create_error(*statement),
        },
{
    match statement {
        Stmt::NewTable(c) => Ok(WalRecord::CreateTable { name: c.name.clone(), columns: copy_strings(&c.columns) }),
        Stmt::NewIndex(c) => {
            let index_name = match &c.name {
                Some(n) => n.clone(),
                None => {
                    return Err("CREATE INDEX 必须有索引名".to_string());
                },
            };
            if c.columns.len() == 0 {
                return Err("No column specified for index".to_string());
            }
            Ok(
                WalRecord::CreateIndex {
                    table: c.table_name.clone(),
                    index_name,
                    column: c.columns[0].clone(),
                },
            )
        },
        _ => Err("Unsupported CREATE statement".to_string()),
    }
}

/// The record a DROP INDEX asks for: the first name, on the ON table.
pub open spec fn drop_record_of(names: Seq<Seq<char>>, table: Option<Seq<char>>) -> Option<RecordView> {
    if names.len() == 0 {
        None
    } else {
        match table {
            Some(t) => Some(RecordView::DropIndex { table: t, index_name: names[0] }),
            None => None,
        }
    }
}

/// The text of the error reading DROP INDEX gives, where it gives one.
pub open spec fn drop_error(names: Seq<Seq<char>>) -> Seq<char> {
    if names.len() == 0 {
        "索引名缺失"@
    } else {
        "DROP INDEX 需要 ON table_name"@
    }
}

/// Turns DROP INDEX into its log record; a missing name or ON table is an
/// error.
pub fn make_drop_index_record(names: &Vec<String>, table_name: &Option<String>) -> (r: Result<WalRecord, String>)
    ensures
        match r {
            Ok(rec) => drop_record_of(
                names.deep_view(),
                match table_name {
                    Some(t) => Some(t@),
                    None => None,
                },
            ) == Some(rec@),
            Err(e) => drop_record_of(
                names.deep_view(),
                match table_name {
                    Some(t) => Some(t@),
                    None => None,
                },
            ) is None && e@ == drop_error(names.deep_view()),
        },
{
    if names.len() == 0 {
        return Err("索引名缺失".to_string());
    }
    let tbl = match table_name {
        Some(t) => t.clone(),
        None => {
            return Err("DROP INDEX 需要 ON table_name".to_string());
        },
    };
    Ok(WalRecord::DropIndex { table: tbl, index_name: names[0].clone() })
}

/// What an INSERT stores for one expression: a string's or a number's
/// text, `NULL` for anything else.
pub open spec fn insert_value(e: SqlExpr) -> Seq<char> {
    match e {
        SqlExpr::Lit(Literal::SingleQuoted(s)) => s@,
        SqlExpr::Lit(Literal::Number(n)) => n@,
        _ => "NULL"@,
    }
}

/// The record an INSERT asks for: the first row of its VALUES, under the
/// table's next id.
pub open spec fn insert_record_of(ins: InsertStmt) -> Option<RecordView> {
    match ins.source {
        Some(InsertRows::Values(rows)) => Some(
            RecordView::Insert {
                table: ins.table@,
                id: 0,
                values: rows@[0]@.map_values(|e: SqlExpr| insert_value(e)),
            },
        ),
        _ => None,
    }
}

/// The text of the error reading an INSERT gives, where it gives one.
pub open spec fn insert_error(ins: InsertStmt) -> Seq<char> {
    match ins.source {
        Some(InsertRows::Values(_)) => "VALUES 缺少行"@,
        Some(_) => "Only VALUES() supported"@,
        None => "Missing source"@,
    }
}

/// Turns an INSERT into its log record. Rows that do not come from
/// VALUES, or no rows, are an error.
pub fn make_insert_record(insert: &InsertStmt) -> (r: Result<WalRecord, String>)
    requires
        insert.source matches Some(InsertRows::Values(rows)) ==> rows@.len() > 0,
    ensures
        match r {
            Ok(rec) => insert_record_of(*insert) == Some(rec@),
            Err(e) => insert_record_of(*insert) is None && e@ == insert_error(*insert),
        },
{
    let first = match &insert.source {
        Some(InsertRows::Values(rows)) => &rows[0],
        Some(_) => {
            return Err("Only VALUES() supported".to_string());
        },
        None => {
            return Err("Missing source".to_string());
        },
    };
    let mut values: Vec<String> = Vec::new();
    let mut i: usize = 0;
    while i < first.len()
        invariant
            i <= first@.len(),
            values@.len() == i,
            forall|j: int| 0 <= j < i ==> #[trigger] values@[j]@ == insert_value(first@[j]),
        decreases first@.len() - i,
    {
        let v = match &first[i] {
            SqlExpr::Lit(Literal::SingleQuoted(s)) => s.clone(),
            SqlExpr::Lit(Literal::Number(n)) => n.clone(),
            _ => {
                proof {
                    reveal_strlit("NULL");
                }
                "NULL".to_string()
            },
        };
        values.push(v);
        i = i + 1;
    }
    proof {
        assert(values.deep_view() =~= first@.map_values(|e: SqlExpr| insert_value(e)));
    }
    Ok(WalRecord::Insert { table: insert.table.clone(), id: 0, values })
}

/// The value an UPDATE assigns: a string's or a number's text.
pub open spec fn set_value_of(e: SqlExpr) -> Option<Seq<char>> {
    match e {
        SqlExpr::Lit(Literal::SingleQuoted(s)) => Some(s@),
        SqlExpr::Lit(Literal::Number(n)) => Some(n@),
        _ => None,
    }
}

/// The conditions of an optional WHERE clause (none without one).
pub open spec fn where_of(selection: Option<SqlExpr>) -> Option<Seq<crate::condition::ConditionView>> {
    match selection {
        Some(e) => conditions_of(e),
        None => Some(Seq::empty()),
    }
}

/// The text of the error reading an optional WHERE clause gives, where it
/// gives one.
pub open spec fn where_error(selection: Option<SqlExpr>) -> Seq<char> {
    match selection {
        Some(e) => conditions_error(e),
        None => Seq::empty(),
    }
}

/// The text of the error reading an UPDATE gives, where it gives one.
pub open spec fn update_error(u: UpdateStmt) -> Seq<char> {
    let a = u.assignments@[0];
    if a.target is None {
        "SET 目标仅支持简单列名"@
    } else if set_value_of(a.value) is None {
        if a.value is Lit {
            "Unsupported value in SET"@
        } else {
            "SET value must be literal"@
        }
    } else {
        where_error(u.selection)
    }
}

/// The record an UPDATE asks for: its first assignment, which must set a
/// single column to a literal, on the rows its WHERE clause selects.
pub open spec fn update_record_of(u: UpdateStmt) -> Option<RecordView> {
    let a = u.assignments@[0];
    match (a.target, set_value_of(a.value), where_of(u.selection)) {
        (Some(col), Some(v), Some(conds)) => Some(
            RecordView::Update { table: u.table@, conditions: conds, set_col: col@, set_val: v },
        ),
        _ => None,
    }
}

/// Reads an optional WHERE clause.
pub fn read_where(selection: &Option<SqlExpr>) -> (r: Result<Vec<crate::condition::Condition>, String>)
    ensures
        match r {
            Ok(v) => where_of(*selection) == Some(conditions_view(v@)),
            Err(e) => where_of(*selection) is None && e@ == where_error(*selection),
        },
{
    match selection {
        Some(e) => extract_conditions(e),
        None => {
            let v: Vec<crate::condition::Condition> = Vec::new();
            proof {
                assert(conditions_view(v@) =~= Seq::<crate::condition::ConditionView>::empty());
            }
            Ok(v)
        },
    }
}

/// Turns an UPDATE into its log record.
pub fn make_update_record(update: &UpdateStmt) -> (r: Result<WalRecord, String>)
    requires
        update.assignments@.len() > 0,
    ensures
        match r {
            Ok(rec) => update_record_of(*update) == Some(rec@),
            Err(e) => update_record_of(*update) is None && e@ == update_error(*update),
        },
{
    let a = &update.assignments[0];
    let set_col = match &a.target {
        Some(c) => c.clone(),
        None => {
            return Err("SET 目标仅支持简单列名".to_string());
        },
    };
    let set_val = match &a.value {
        SqlExpr::Lit(Literal::SingleQuoted(s)) => s.clone(),
        SqlExpr::Lit(Literal::Number(n)) => n.clone(),
        SqlExpr::Lit(_) => {
            return Err("Unsupported value in SET".to_string());
        },
        _ => {
            return Err("SET value must be literal".to_string());
        },
    };
    let conditions = read_where(&update.selection)?;
    Ok(WalRecord::Update { table: update.table.clone(), conditions, set_col, set_val })
}

/// The table a DELETE names: the first one before FROM, else the first
/// FROM item, which must be a plain table.
pub open spec fn delete_table_of(d: DeleteStmt) -> Option<Seq<char>> {
    if d.tables@.len() > 0 {
        Some(d.tables@[0]@)
    } else if d.from@.len() == 0 {
        None
    } else {
        match d.from@[0].relation {
            FromSource::Table { name, .. } => Some(name@),
            _ => None,
        }
    }
}

/// The text of the error reading a DELETE gives, where it gives one.
pub open spec fn delete_error(d: DeleteStmt) -> Seq<char> {
    if delete_table_of(d) is Some {
        where_error(d.selection)
    } else if d.from@.len() == 0 {
        "DELETE 缺少表名"@
    } else {
        "仅支持简单表名"@
    }
}

/// The record a DELETE asks for.
pub open spec fn delete_record_of(d: DeleteStmt) -> Option<RecordView> {
    match (delete_table_of(d), where_of(d.selection)) {
        (Some(t), Some(conds)) => Some(RecordView::Delete { table: t, conditions: conds }),
        _ => None,
    }
}

/// Turns a DELETE into its log record.
pub fn make_delete_record(delete: &DeleteStmt) -> (r: Result<WalRecord, String>)
    ensures
        match r {
            Ok(rec) => delete_record_of(*delete) == Some(rec@),
            Err(e) => delete_record_of(*delete) is None && e@ == delete_error(*delete),
        },
{
    let table = if delete.tables.len() > 0 {
        delete.tables[0].clone()
    } else {
        if delete.from.len() == 0 {
            return Err("DELETE 缺少表名".to_string());
        }
        match &delete.from[0].relation {
            FromSource::Table { name, .. } => name.clone(),
            _ => {
                return Err("仅支持简单表名".to_string());
            },
        }
    };
    let conditions = read_where(&delete.selection)?;
    Ok(WalRecord::Delete { table, conditions })
}

/// The table a row write names.
pub open spec fn written_table(rv: RecordView) -> Option<Seq<char>> {
    match rv {
        RecordView::Insert { table, .. } => Some(table),
        RecordView::Update { table, .. } => Some(table),
        RecordView::Delete { table, .. } => Some(table),
        _ => None,
    }
}

/// The text of the error a record run directly on `tables` gives, where it
/// gives one: `Table not found` for a row write to a missing table, else
/// what applying it reports.
pub open spec fn direct_error(tables: Map<Seq<char>, TableView>, rv: RecordView) -> Seq<char> {
    match written_table(rv) {
        Some(t) => if !tables.contains_key(t) {
            "Table not found"@
        } else {
            apply_error(tables, rv)
        },
        None => apply_error(tables, rv),
    }
}

/// What running a write's record directly on `db` gives: an error when the
/// statement gives no record (with the text `err`) or the record fails,
/// else the tables after it.
pub open spec fn direct_write_ok<O: Fn(&str, &str) -> Option<Order>>(
    order: O,
    old_db: DatabaseView,
    new_db: DatabaseView,
    rec: Option<RecordView>,
    err: Seq<char>,
    r: Result<(ExecutionResult, Option<WalRecord>), String>,
) -> bool {
    match rec {
        None => r matches Err(e) && e@ == err && new_db == old_db,
        Some(rv) => {
            &&& (r is Ok <==> applied(order, old_db.tables, rv) is Some)
            &&& (r matches Err(e) ==> e@ == direct_error(old_db.tables, rv))
            &&& new_db == (DatabaseView {
                tables: match applied(order, old_db.tables, rv) {
                    Some(t) => t,
                    None => old_db.tables,
                },
                ..old_db
            })
            &&& (r matches Ok((res, w)) ==> res == write_result(order, old_db.tables, rv) && (w matches Some(
                x,
            ) && x@ == rv))
        },
    }
}

/// Runs an INSERT directly on `db` (no log, no transaction) and gives back
/// its result with the record that describes it. A missing table is
/// `Table not found`, before the rows are read.
pub fn execute_insert<O: Fn(&str, &str) -> Option<Order>>(db: &mut Database, statement: &Stmt, order: &O) -> (r:
    Result<(ExecutionResult, Option<WalRecord>), String>)
    requires
        old(db).wf(),
        is_value_order(*order),
        statement matches Stmt::InsertInto(i) ==> (old(db)@.tables.contains_key(i.table@) ==> (
        i.source matches Some(InsertRows::Values(rows)) ==> rows@.len() > 0)),
    ensures
        final(db).wf(),
        direct_write_ok(
            *order,
            old(db)@,
            final(db)@,
            match *statement {
                Stmt::InsertInto(i) => if old(db)@.tables.contains_key(i.table@) {
                    insert_record_of(i)
                } else {
                    None
                },
                _ => None,
            },
            match *statement {
                Stmt::InsertInto(i) => if old(db)@.tables.contains_key(i.table@) {
                    insert_error(i)
                } else {
                    "Table not found"@
                },
                _ => "Not an INSERT statement"@,
            },
            r,
        ),
{
    match statement {
        Stmt::InsertInto(i) => {
            if db.find_table(&i.table).is_none() {
                return Err("Table not found".to_string());
            }
            let rec = make_insert_record(i)?;
            let res = db.apply_wal_record_to_result(&rec, order)?;
            Ok((res, Some(rec)))
        },
        _ => Err("Not an INSERT statement".to_string()),
    }
}

/// Runs an UPDATE directly on `db` and gives back its result with the
/// record that describes it. A missing table is `Table not found`, once the
/// statement has been read.
pub fn execute_update<O: Fn(&str, &str) -> Option<Order>>(db: &mut Database, statement: &Stmt, order: &O) -> (r:
    Result<(ExecutionResult, Option<WalRecord>), String>)
    requires
        old(db).wf(),
        is_value_order(*order),
        statement matches Stmt::UpdateSet(u) ==> u.assignments@.len() > 0,
    ensures
        final(db).wf(),
        direct_write_ok(
            *order,
            old(db)@,
            final(db)@,
            match *statement {
                Stmt::UpdateSet(u) => update_record_of(u),
                _ => None,
            },
            match *statement {
                Stmt::UpdateSet(u) => update_error(u),
                _ => "Not an UPDATE statement"@,
            },
            r,
        ),
{
    match statement {
        Stmt::UpdateSet(u) => {
            let rec = make_update_record(u)?;
            let name = match &rec {
                WalRecord::Update { table, .. } | WalRecord::Delete { table, .. } => table,
                _ => {
                    return Err("Table not found".to_string());
                },
            };
            if db.find_table(name).is_none() {
                return Err("Table not found".to_string());
            }
            let res = db.apply_wal_record_to_result(&rec, order)?;
            Ok((res, Some(rec)))
        },
        _ => Err("Not an UPDATE statement".to_string()),
    }
}

/// Runs a DELETE directly on `db` and gives back its result with the
/// record that describes it. A missing table is `Table not found`, once the
/// statement has been read.
pub fn execute_delete<O: Fn(&str, &str) -> Option<Order>>(db: &mut Database, statement: &Stmt, order: &O) -> (r:
    Result<(ExecutionResult, Option<WalRecord>), String>)
    requires
        old(db).wf(),
        is_value_order(*order),
    ensures
        final(db).wf(),
        direct_write_ok(
            *order,
            old(db)@,
            final(db)@,
            match *statement {
                Stmt::DeleteFrom(d) => delete_record_of(d),
                _ => None,
            },
            match *statement {
                Stmt::DeleteFrom(d) => delete_error(d),
                _ => "Not a DELETE statement"@,
            },
            r,
        ),
{
    match statement {
        Stmt::DeleteFrom(d) => {
            let rec = make_delete_record(d)?;
            let name = match &rec {
                WalRecord::Update { table, .. } | WalRecord::Delete { table, .. } => table,
                _ => {
                    return Err("Table not found".to_string());
                },
            };
            if db.find_table(name).is_none() {
                return Err("Table not found".to_string());
            }
            let res = db.apply_wal_record_to_result(&rec, order)?;
            Ok((res, Some(rec)))
        },
        _ => Err("Not a DELETE statement".to_string()),
    }
}

/// The tables after a CREATE runs directly on `tables`: a new empty table
/// (in place of any table of that name), or an index on the first listed
/// column of an existing table, named after the column. `None` where the
/// statement fails: no column, an unknown table or column, or a statement
/// that is not a CREATE.
pub open spec fn created_tables(tables: Map<Seq<char>, TableView>, stmt: Stmt) -> Option<
    Map<Seq<char>, TableView>,
> {
    match stmt {
        Stmt::NewTable(c) => Some(tables.insert(c.name@, TableView::fresh(c.columns.deep_view()))),
        Stmt::NewIndex(c) => {
            if c.columns@.len() > 0 && tables.contains_key(c.table_name@) && position(
                tables[c.table_name@].columns,
                c.columns@[0]@,
            ) is Some {
                let col = c.columns@[0]@;
                Some(tables.insert(c.table_name@, tables[c.table_name@].with_index(col, col)))
            } else {
                None
            }
        },
        _ => None,
    }
}

/// The text of the error a CREATE run directly on `tables` gives, where it
/// gives one.
pub open spec fn create_direct_error(tables: Map<Seq<char>, TableView>, stmt: Stmt) -> Seq<char> {
    match stmt {
        Stmt::NewIndex(c) => if c.columns@.len() == 0 {
            "No column specified for index"@
        } else if !tables.contains_key(c.table_name@) {
            "Table not found"@
        } else {
            "Column not found"@
        },
        _ => "Unsupported CREATE statement"@,
    }
}

/// Runs CREATE TABLE or CREATE INDEX directly on `db`, with no log record.
pub fn execute_create(db: &mut Database, statement: &Stmt) -> (r: Result<ExecutionResult, String>)
    requires
        old(db).wf(),
    ensures
        final(db).wf(),
        match created_tables(old(db)@.tables, *statement) {
            Some(t) => {
                &&& final(db)@ == (DatabaseView { tables: t, ..old(db)@ })
                &&& r == Ok::<ExecutionResult, String>(
                    if statement is NewTable {
                        ExecutionResult::CreateTable
                    } else {
                        ExecutionResult::CreateIndex
                    },
                )
            },
            None => final(db)@ == old(db)@ && (r matches Err(e) && e@ == create_direct_error(
                old(db)@.tables,
                *statement,
            )),
        },
{
    match statement {
        Stmt::NewTable(c) => {
            db.add_table(c.name.as_str(), copy_strings(&c.columns));
            Ok(ExecutionResult::CreateTable)
        },
        Stmt::NewIndex(c) => {
            if c.columns.len() == 0 {
                return Err("No column specified for index".to_string());
            }
            let column = &c.columns[0];
            match db.find_table(&c.table_name) {
                None => Err("Table not found".to_string()),
                Some(i) => {
                    let ghost before = db.tables@;
                    let res = db.tables[i].table.build_index(column.as_str(), column.as_str());
                    proof {
                        lemma_table_replaced(before, db.tables@, i as int);
                        db.lemma_tables_wf_after(before, i as int);
                    }
                    match res {
                        Ok(()) => Ok(ExecutionResult::CreateIndex),
                        Err(e) => {
                            proof {
                                assert(db@.tables =~= old(db)@.tables);
                            }
                            Err(e)
                        },
                    }
                },
            }
        },
        _ => Err("Unsupported CREATE statement".to_string()),
    }
}

} // verus!
