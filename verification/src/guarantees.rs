//! What the database promises across operations: what recovery gives back
//! of what was logged, what dropping an index undoes, and how ids and
//! deleted and updated rows behave, and what a rollback restores.
use vstd::prelude::*;
use crate::database::{commit_ok, rollback_ok, write_ok, DatabaseView};
use crate::executor::{statement_ok, statement_record};
use crate::outcome::{AfterLogView, ExecutionResult};
use crate::sql::Stmt;
use crate::value::Numeric;
use crate::outcome::Step;
use crate::table::{has_row, TableView};
use crate::text::position;
use crate::value::Order;
use crate::wal::{
    apply_all, applied, is_marker, lemma_replay_auto_commit, lemma_replay_committed, lemma_replay_uncommitted,
    records_view, replayed, table_insert, RecordView,
};

verus! {

/// A commit that asks for its log records to be written: replaying those
/// records (and whatever is logged after them) from the tables as they
/// were applies the transaction's writes in order, exactly as finishing
/// the commit does.
pub proof fn lemma_commit_log_replays<O: Fn(&str, &str) -> Option<Order>>(
    order: O,
    old_db: DatabaseView,
    new_db: DatabaseView,
    r: Result<Step, String>,
    rest: Seq<RecordView>,
)
    requires
        commit_ok(old_db, new_db, r),
        r matches Ok(Step::Log(_)),
        forall|j: int| 0 <= j < old_db.pending->0.len() ==> !is_marker(#[trigger] old_db.pending->0[j]),
    ensures
        r matches Ok(Step::Log(req)) && replayed(order, old_db.tables, records_view(req.records@) + rest) == {
            let (t, ok) = apply_all(order, old_db.tables, old_db.pending->0);
            if ok {
                replayed(order, t, rest)
            } else {
                (t, false)
            }
        },
{
    let recs = old_db.pending->0;
    lemma_replay_committed(order, old_db.tables, recs, rest);
}

/// A write outside a transaction that asks for its log records to be
/// written: replaying them (and what follows) applies the write, exactly
/// as finishing it does.
pub proof fn lemma_write_log_replays<O: Fn(&str, &str) -> Option<Order>>(
    order: O,
    old_db: DatabaseView,
    new_db: DatabaseView,
    rec: RecordView,
    r: Result<Step, String>,
    rest: Seq<RecordView>,
)
    requires
        write_ok(order, old_db, new_db, rec, r),
        old_db.pending is None,
        old_db.wal_path is Some,
        !is_marker(rec),
    ensures
        r matches Ok(Step::Log(req)) && replayed(order, old_db.tables, records_view(req.records@) + rest) == match applied(
            order,
            old_db.tables,
            rec,
        ) {
            Some(t) => replayed(order, t, rest),
            None => (old_db.tables, false),
        },
{
    lemma_replay_auto_commit(order, old_db.tables, rec, rest);
}

/// A rollback leaves no trace in the log: replaying what it asks to be
/// written changes nothing, nor does the log of a transaction that never
/// reached its commit.
pub proof fn lemma_rollback_log_replays<O: Fn(&str, &str) -> Option<Order>>(
    order: O,
    old_db: DatabaseView,
    new_db: DatabaseView,
    r: Result<Step, String>,
    rest: Seq<RecordView>,
)
    requires
        rollback_ok(old_db, new_db, r),
    ensures
        new_db.tables == old_db.tables,
        r matches Ok(Step::Log(req)) ==> replayed(order, old_db.tables, records_view(req.records@) + rest)
            == replayed(order, old_db.tables, rest),
{
    lemma_replay_uncommitted(order, old_db.tables, Seq::empty(), rest);
}

/// Dropping an index by the name it was created under removes it again
/// and leaves every other index as it was (unless the name is itself
/// another indexed column, which drop takes first).
pub proof fn lemma_drop_undoes_create(tv: TableView, name: Seq<char>, col: Seq<char>)
    requires
        name == col || !tv.indexes.contains_key(name),
    ensures
        tv.with_index(name, col).without_index(name).indexes == tv.indexes.remove(col),
{
    let t1 = tv.with_index(name, col);
    if name == col {
        assert(t1.indexes.contains_key(name));
        assert(t1.indexes.remove(name) =~= tv.indexes.remove(col));
    } else {
        assert(!t1.indexes.contains_key(name));
        assert(t1.index_names.contains_key(name));
        assert(t1.index_names[name] == col);
        assert(t1.indexes.remove(col) =~= tv.indexes.remove(col));
    }
}

/// The next id of a table is never the id of a stored row, so an insert
/// under it never meets an existing row.
pub proof fn lemma_next_id_fresh(tv: TableView)
    requires
        tv.wf(),
    ensures
        !has_row(tv.rows, tv.next_id),
{
    if has_row(tv.rows, tv.next_id) {
        let r = choose|r: int| 0 <= r < tv.rows.len() && #[trigger] tv.rows[r].0 == tv.next_id;
        assert(tv.rows[r].0 < tv.next_id);
    }
}

/// Replaying an insert under its own id a second time changes nothing:
/// the row is there already.
pub proof fn lemma_insert_with_id_idempotent(tv: TableView, id: u64, vals: Seq<Seq<char>>)
    requires
        tv.wf(),
        id != 0,
        table_insert(tv, id, vals) is Some,
    ensures
        table_insert(table_insert(tv, id, vals)->0, id, vals) == table_insert(tv, id, vals),
{
    let t1 = table_insert(tv, id, vals)->0;
    if !has_row(tv.rows, id) {
        lemma_insert_point_exists(tv.rows, id);
        let k = choose|k: int| crate::table::insert_point(tv.rows, k, id);
        crate::table::lemma_insert_at(tv.rows, k, (id, vals));
        assert(t1.rows[k].0 == id);
        assert(has_row(t1.rows, id));
    }
}

/// Rows in ascending order of id have a place for any id they lack.
pub proof fn lemma_insert_point_exists(rows: Seq<(u64, Seq<Seq<char>>)>, id: u64)
    requires
        crate::table::ids_ascending(rows),
        !has_row(rows, id),
    ensures
        exists|k: int| crate::table::insert_point(rows, k, id),
    decreases rows.len(),
{
    if rows.len() == 0 {
        assert(crate::table::insert_point(rows, 0, id));
    } else {
        let init = rows.drop_last();
        assert(!has_row(init, id)) by {
            if has_row(init, id) {
                let r = choose|r: int| 0 <= r < init.len() && #[trigger] init[r].0 == id;
                assert(rows[r].0 == id);
            }
        }
        lemma_insert_point_exists(init, id);
        let k0 = choose|k: int| crate::table::insert_point(init, k, id);
        let n = rows.len() - 1;
        assert(rows[n].0 != id);
        if rows[n].0 < id {
            assert forall|j: int| 0 <= j < n + 1 implies #[trigger] rows[j].0 < id by {
                if j < n {
                    assert(rows[j].0 < rows[n].0);
                }
            }
            assert(crate::table::insert_point(rows, n + 1, id));
        } else {
            assert forall|j: int| k0 <= j < rows.len() implies #[trigger] rows[j].0 > id by {
                if j < n {
                    assert(init[j] == rows[j]);
                }
            }
            assert forall|j: int| 0 <= j < k0 implies #[trigger] rows[j].0 < id by {
                assert(init[j] == rows[j]);
            }
            assert(crate::table::insert_point(rows, k0, id));
        }
    }
}

/// After a delete, no remaining row passes its conditions, and every row
/// that fails them remains, in order.
pub proof fn lemma_deleted_rows_gone(tv: TableView, pass: spec_fn((u64, Seq<Seq<char>>)) -> bool)
    ensures
        forall|i: int| 0 <= i < tv.without_rows_where(pass).rows.len() ==> !pass(
            #[trigger] tv.without_rows_where(pass).rows[i],
        ),
        tv.without_rows_where(pass).rows == tv.rows.filter(|r: (u64, Seq<Seq<char>>)| !pass(r)),
{
    let keep = |r: (u64, Seq<Seq<char>>)| !pass(r);
    crate::seqs::lemma_filter_members(tv.rows, keep);
    assert forall|i: int| 0 <= i < tv.without_rows_where(pass).rows.len() implies !pass(
        #[trigger] tv.without_rows_where(pass).rows[i],
    ) by {
        assert(keep(tv.rows.filter(keep)[i]));
    }
}

/// Looking a value up through an index finds the rows that scanning for
/// the same equality finds, when the value order counts only equal texts
/// as equal (an index matches texts exactly, a scan compares by the value
/// order) and the condition names the column without a qualifier.
pub proof fn lemma_index_agrees_with_scan<O: Fn(&str, &str) -> Option<Order>>(
    order: O,
    tv: TableView,
    c: crate::condition::ConditionView,
    id: u64,
)
    requires
        tv.wf(),
        c.op == "="@,
        !c.rhs_is_column,
        tv.indexes.contains_key(c.col),
        crate::text::actual_column(c.col) == c.col,
        forall|v: Seq<char>| #[trigger] crate::value::order_of(order, v, c.val) == Some(Order::Equal) <==> v == c.val,
    ensures
        crate::table::ids_of(tv.indexes[c.col], c.val).contains(id) <==> crate::table_scan::ids_of_rows(
            crate::table_scan::passing_rows(order, tv, seq![c]),
        ).contains(id),
{
    let m = tv.indexes[c.col];
    let p = crate::table::column_pos(tv.columns, c.col);
    crate::text::lemma_position_facts(tv.columns, c.col);
    assert(crate::table::index_consistent(tv.rows, p, m));
    let pass = crate::table_scan::passes(order, tv.columns, seq![c]);
    let pr = tv.rows.filter(pass);
    crate::seqs::lemma_filter_members(tv.rows, pass);
    assert forall|r: int| 0 <= r < tv.rows.len() implies pass(#[trigger] tv.rows[r]) == (tv.rows[r].1[p] == c.val) by {
        let row = tv.rows[r].1;
        assert(row.len() == tv.columns.len());
        assert(crate::condition::condition_outcome(order, row, tv.columns, c) == Some(
            crate::value::op_accepts(c.op, match crate::value::order_of(order, row[p], c.val) {
                Some(o) => o,
                None => Order::Greater,
            }) && crate::value::order_of(order, row[p], c.val) is Some,
        ));
        assert(crate::value::order_of(order, row[p], c.val) == Some(Order::Equal) <==> row[p] == c.val);
        if pass(tv.rows[r]) {
            assert(crate::condition::condition_outcome(order, row, tv.columns, seq![c][0]) == Some(true));
        } else {
            assert(!crate::condition::row_passes(order, row, tv.columns, seq![c]));
        }
    }
    let ids = crate::table_scan::ids_of_rows(pr);
    if crate::table::ids_of(m, c.val).contains(id) {
        let j = choose|j: int| 0 <= j < m[c.val].len() && m[c.val][j] == id;
        assert(crate::table::row_has(tv.rows, m[c.val][j], p, c.val));
        let r = choose|r: int| 0 <= r < tv.rows.len() && #[trigger] tv.rows[r].0 == id && tv.rows[r].1[p] == c.val;
        assert(pass(tv.rows[r]));
        assert(pr.contains(tv.rows[r]));
        let q = choose|q: int| 0 <= q < pr.len() && pr[q] == tv.rows[r];
        assert(ids[q] == id);
    }
    if ids.contains(id) {
        let q = choose|q: int| 0 <= q < ids.len() && ids[q] == id;
        assert(pass(pr[q]) && tv.rows.contains(pr[q]));
        let r = choose|r: int| 0 <= r < tv.rows.len() && tv.rows[r] == pr[q];
        assert(tv.rows[r].1[p] == c.val);
        assert(m.contains_key(tv.rows[r].1[p]) && m[tv.rows[r].1[p]].contains(tv.rows[r].0));
    }
}

/// An update touches only the set column of the rows that pass: every row
/// keeps its id and its place, a row that fails keeps all its values, and a
/// row that passes keeps its other columns and reads `nv` in the set one.
pub proof fn lemma_update_touches_only_target(
    tv: TableView,
    pass: spec_fn((u64, Seq<Seq<char>>)) -> bool,
    col: Seq<char>,
    nv: Seq<char>,
)
    requires
        tv.wf(),
        position(tv.columns, col) is Some,
    ensures
        ({
            let nt = tv.with_update(pass, col, nv);
            let p = position(tv.columns, col)->0;
            &&& nt.columns == tv.columns
            &&& nt.next_id == tv.next_id
            &&& nt.rows.len() == tv.rows.len()
            &&& forall|i: int| 0 <= i < tv.rows.len() ==> (#[trigger] nt.rows[i]).0 == tv.rows[i].0
            &&& forall|i: int| 0 <= i < tv.rows.len() && !pass(tv.rows[i]) ==> #[trigger] nt.rows[i] == tv.rows[i]
            &&& forall|i: int, j: int|
                0 <= i < tv.rows.len() && pass(tv.rows[i]) && 0 <= j < tv.columns.len()
                    ==> #[trigger] nt.rows[i].1[j] == if j == p {
                    nv
                } else {
                    tv.rows[i].1[j]
                }
            &&& forall|i: int| 0 <= i < tv.rows.len() ==> (#[trigger] nt.rows[i]).1.len() == tv.columns.len()
        }),
{
    let nt = tv.with_update(pass, col, nv);
    let p = position(tv.columns, col)->0;
    assert forall|i: int| 0 <= i < tv.rows.len() implies (#[trigger] nt.rows[i]).1.len() == tv.columns.len() by {
        assert(tv.rows[i].1.len() == tv.columns.len());
    }
    assert forall|i: int, j: int|
        0 <= i < tv.rows.len() && pass(tv.rows[i]) && 0 <= j < tv.columns.len()
            implies #[trigger] nt.rows[i].1[j] == if j == p {
            nv
        } else {
            tv.rows[i].1[j]
        } by {
        assert(nt.rows[i] == (tv.rows[i].0, tv.rows[i].1.update(p, nv)));
    }
}

/// A statement that asks for a write: neither transaction control nor a
/// query.
pub open spec fn is_write_statement(s: Stmt) -> bool {
    !(s is Begin || s is Commit || s is Rollback || s is Read)
}

/// Whether one of the first `k` statements asks for a write that can be
/// read into a log record.
pub open spec fn staged_before(stmts: Seq<Stmt>, k: int) -> bool {
    exists|j: int| 0 <= j < k && #[trigger] statement_record(stmts[j]) is Some
}

/// Inside a transaction, each write statement is held (or refused with no
/// change): the database stays the one the transaction began on but for
/// the held writes.
proof fn lemma_held_writes<O: Fn(&str, &str) -> Option<Order>, N: Fn(Numeric, &Vec<String>) -> String>(
    order: O,
    numeric: N,
    dbs: Seq<DatabaseView>,
    stmts: Seq<Stmt>,
    results: Seq<Result<Step, String>>,
    k: int,
)
    requires
        dbs.len() == stmts.len() + 2,
        results.len() == stmts.len(),
        0 <= k <= stmts.len(),
        dbs[0].pending is None,
        dbs[1] == (DatabaseView { pending: Some(Seq::<RecordView>::empty()), ..dbs[0] }),
        forall|j: int|
            0 <= j < stmts.len() ==> is_write_statement(#[trigger] stmts[j]) && statement_ok(
                order,
                numeric,
                dbs[j + 1],
                dbs[j + 2],
                stmts[j],
                results[j],
            ),
    ensures
        dbs[k + 1].pending is Some,
        dbs[k + 1] == (DatabaseView { pending: dbs[k + 1].pending, ..dbs[0] }),
        dbs[k + 1].pending->0.len() > 0 <==> staged_before(stmts, k),
        forall|j: int|
            0 <= j < k ==> ((#[trigger] results[j]) is Ok <==> statement_record(stmts[j]) is Some) && (
            results[j] is Ok ==> results[j] == Ok::<Step, String>(Step::Done(ExecutionResult::Pending))),
    decreases k,
{
    if k > 0 {
        lemma_held_writes(order, numeric, dbs, stmts, results, k - 1);
        let s = stmts[k - 1];
        assert(is_write_statement(s) && statement_ok(order, numeric, dbs[k], dbs[k + 1], s, results[k - 1]));
        if statement_record(s) is Some {
            assert(staged_before(stmts, k)) by {
                assert(statement_record(stmts[k - 1]) is Some);
            }
        } else {
            assert(staged_before(stmts, k) == staged_before(stmts, k - 1)) by {
                if staged_before(stmts, k) {
                    let j = choose|j: int| 0 <= j < k && #[trigger] statement_record(stmts[j]) is Some;
                    assert(j != k - 1);
                }
            }
        }
    } else {
        assert(!staged_before(stmts, 0));
    }
}

/// A rollback restores the database its transaction began on: after
/// BEGIN, any number of write statements (each held as pending, or refused
/// with no change) and ROLLBACK, the tables, the lookup counts and the log
/// are as before BEGIN and no transaction is open. ROLLBACK asks for the
/// `Rollback` record to be logged exactly when there is a log and a write
/// was held; finishing it after that changes nothing more.
pub proof fn lemma_rollback_restores<O: Fn(&str, &str) -> Option<Order>, N: Fn(Numeric, &Vec<String>) -> String>(
    order: O,
    numeric: N,
    dbs: Seq<DatabaseView>,
    stmts: Seq<Stmt>,
    results: Seq<Result<Step, String>>,
    begun: Result<Step, String>,
    rolled: DatabaseView,
    rb: Result<Step, String>,
)
    requires
        dbs.len() == stmts.len() + 2,
        results.len() == stmts.len(),
        dbs[0].pending is None,
        statement_ok(order, numeric, dbs[0], dbs[1], Stmt::Begin, begun),
        forall|j: int|
            0 <= j < stmts.len() ==> is_write_statement(#[trigger] stmts[j]) && statement_ok(
                order,
                numeric,
                dbs[j + 1],
                dbs[j + 2],
                stmts[j],
                results[j],
            ),
        statement_ok(order, numeric, dbs[stmts.len() + 1int], rolled, Stmt::Rollback, rb),
    ensures
        begun is Ok,
        forall|j: int|
            0 <= j < stmts.len() ==> ((#[trigger] results[j]) is Ok <==> statement_record(stmts[j]) is Some) && (
            results[j] is Ok ==> results[j] == Ok::<Step, String>(Step::Done(ExecutionResult::Pending))),
        rb is Ok,
        rolled == dbs[0],
        (rb matches Ok(Step::Log(_))) <==> (dbs[0].wal_path is Some && staged_before(stmts, stmts.len() as int)),
        rb matches Ok(Step::Log(req)) ==> {
            &&& dbs[0].wal_path == Some(req.path@)
            &&& records_view(req.records@) == seq![RecordView::Rollback]
            &&& req.after@ == AfterLogView::RolledBack
        },
        rb matches Ok(Step::Done(res)) ==> res is RollbackTransaction,
{
    lemma_held_writes(order, numeric, dbs, stmts, results, stmts.len() as int);
}

} // verus!
