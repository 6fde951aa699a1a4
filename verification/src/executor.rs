//! Running one SQL statement against the database.
use vstd::prelude::*;
use crate::database::{begin_ok, commit_ok, rollback_ok, write_ok, Database, DatabaseView};
use crate::outcome::{ExecutionResult, Step};
use crate::parser::{parse_sql, parsed_statements};
use crate::records::{
    create_error, delete_error, drop_error, insert_error, update_error,
    create_record_of, delete_record_of, drop_record_of, insert_record_of, make_create_record, make_delete_record,
    make_drop_index_record, make_insert_record, make_update_record, update_record_of,
};
use crate::select::{execute_select, select_ok};
use crate::sql::{InsertRows, Stmt};
use crate::value::{is_antisymmetric, is_numeric_fn, is_value_order, Numeric, Order};
use crate::wal::RecordView;

verus! {

broadcast use vstd::string::group_string_axioms;

/// The log record a write statement asks for; `None` when it cannot be
/// read (an INSERT without rows, an UPDATE without assignment and an
/// unnamed CREATE INDEX among them), or for a statement that is no write.
pub open spec fn statement_record(stmt: Stmt) -> Option<RecordView> {
    match stmt {
        Stmt::InsertInto(i) => if i.source matches Some(InsertRows::Values(rows)) && rows@.len() == 0 {
            None
        } else {
            insert_record_of(i)
        },
        Stmt::UpdateSet(u) => if u.assignments@.len() == 0 {
            None
        } else {
            update_record_of(u)
        },
        Stmt::DeleteFrom(d) => delete_record_of(d),
        Stmt::NewTable(_) => create_record_of(stmt),
        Stmt::NewIndex(c) => if c.name is None {
            None
        } else {
            create_record_of(stmt)
        },
        Stmt::DropObject(d) => if d.is_index {
            drop_record_of(
                d.names.deep_view(),
                match d.table {
                    Some(t) => Some(t@),
                    None => None,
                },
            )
        } else {
            None
        },
        _ => None,
    }
}

/// The text of the error a statement that gives no log record reports.
pub open spec fn statement_error(stmt: Stmt) -> Seq<char> {
    match stmt {
        Stmt::InsertInto(i) => insert_error(i),
        Stmt::UpdateSet(u) => if u.assignments@.len() == 0 {
            "UPDATE 缺少 SET"@
        } else {
            update_error(u)
        },
        Stmt::DeleteFrom(d) => delete_error(d),
        Stmt::NewTable(_) | Stmt::NewIndex(_) => create_error(stmt),
        Stmt::DropObject(d) => if d.is_index {
            drop_error(d.names.deep_view())
        } else {
            "Unsupported statement"@
        },
        _ => "Unsupported statement"@,
    }
}

/// What running one statement does: transaction control, a query, or a
/// write taken as `Database::handle_write` takes it; any other statement
/// is an error.
pub open spec fn statement_ok<O: Fn(&str, &str) -> Option<Order>, N: Fn(Numeric, &Vec<String>) -> String>(
    order: O,
    numeric: N,
    old_db: DatabaseView,
    new_db: DatabaseView,
    stmt: Stmt,
    r: Result<Step, String>,
) -> bool {
    match stmt {
        Stmt::Begin => {
            &&& r is Ok ==> (r matches Ok(Step::Done(res)) && res is BeginTransaction)
            &&& begin_ok(
                old_db,
                new_db,
                match r {
                    Ok(_) => Ok(()),
                    Err(e) => Err(e),
                },
            )
        },
        Stmt::Commit => commit_ok(old_db, new_db, r),
        Stmt::Rollback => rollback_ok(old_db, new_db, r),
        Stmt::Read(q) => match r {
            Ok(Step::Done(res)) => select_ok(order, numeric, old_db, new_db, q, Ok(res)),
            Ok(Step::Log(_)) => false,
            Err(e) => select_ok(order, numeric, old_db, new_db, q, Err(e)),
        },
        _ => match statement_record(stmt) {
            None => r matches Err(e) && e@ == statement_error(stmt) && new_db == old_db,
            Some(rec) => write_ok(order, old_db, new_db, rec, r),
        },
    }
}

/// Runs one parsed statement. Writes become log records and go through
/// `Database::handle_write`; queries read the committed tables, also
/// inside a transaction.
pub fn execute_statement<O: Fn(&str, &str) -> Option<Order>, N: Fn(Numeric, &Vec<String>) -> String>(
    db: &mut Database,
    statement: &Stmt,
    order: &O,
    numeric: &N,
) -> (r: Result<Step, String>)
    requires
        old(db).wf(),
        is_value_order(*order),
        is_antisymmetric(*order),
        is_numeric_fn(*numeric),
    ensures
        final(db).wf(),
        statement_ok(*order, *numeric, old(db)@, final(db)@, *statement, r),
{
    let record = match statement {
        Stmt::Begin => {
            return match db.begin_transaction() {
                Ok(()) => Ok(Step::Done(ExecutionResult::BeginTransaction)),
                Err(e) => Err(e),
            };
        },
        Stmt::Commit => {
            return db.commit_transaction();
        },
        Stmt::Rollback => {
            return db.rollback_transaction();
        },
        Stmt::Read(q) => {
            return match execute_select(db, q, order, numeric) {
                Ok(res) => Ok(Step::Done(res)),
                Err(e) => Err(e),
            };
        },
        Stmt::InsertInto(i) => {
            match &i.source {
                Some(InsertRows::Values(rows)) => {
                    if rows.len() == 0 {
                        return Err("VALUES 缺少行".to_string());
                    }
                },
                _ => {},
            }
            make_insert_record(i)?
        },
        Stmt::UpdateSet(u) => {
            if u.assignments.len() == 0 {
                return Err("UPDATE 缺少 SET".to_string());
            }
            make_update_record(u)?
        },
        Stmt::DeleteFrom(d) => make_delete_record(d)?,
        Stmt::NewTable(_) => make_create_record(statement)?,
        Stmt::NewIndex(c) => {
            if c.name.is_none() {
                return Err("CREATE INDEX 必须有索引名".to_string());
            }
            make_create_record(statement)?
        },
        Stmt::DropObject(d) => {
            if !d.is_index {
                return Err("Unsupported statement".to_string());
            }
            make_drop_index_record(&d.names, &d.table)?
        },
        Stmt::Other => {
            return Err("Unsupported statement".to_string());
        },
    };
    db.handle_write(record, order)
}

/// Parses `sql` and runs it. The text must hold exactly one statement.
pub fn execute_sql<O: Fn(&str, &str) -> Option<Order>, N: Fn(Numeric, &Vec<String>) -> String>(
    db: &mut Database,
    sql: &str,
    order: &O,
    numeric: &N,
) -> (r: Result<Step, String>)
    requires
        old(db).wf(),
        is_value_order(*order),
        is_antisymmetric(*order),
        is_numeric_fn(*numeric),
    ensures
        final(db).wf(),
        match parsed_statements(sql@) {
            Ok(v) => if v@.len() == 1 {
                statement_ok(*order, *numeric, old(db)@, final(db)@, v@[0], r)
            } else {
                r matches Err(m) && m@ == "Only one statement per call is supported"@ && final(db)@ == old(db)@
            },
            Err(e) => r matches Err(m) && m@ == "Parse error: "@ + e && final(db)@ == old(db)@,
        },
{
    let stmts = match parse_sql(sql) {
        Ok(v) => v,
        Err(e) => {
            return Err(crate::text::concat_strings("Parse error: ", e.as_str()));
        },
    };
    if stmts.len() != 1 {
        return Err("Only one statement per call is supported".to_string());
    }
    execute_statement(db, &stmts[0], order, numeric)
}

} // verus!
