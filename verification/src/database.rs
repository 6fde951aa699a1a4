//! The database: named tables, query statistics, the log's location and the
//! open transaction.
use vstd::prelude::*;
use crate::assoc::{find_key, keys_distinct, lemma_map_at, lemma_map_push, lemma_map_update, to_map, Keyed};
use crate::outcome::{AfterLog, ExecutionResult, LogRequest, Step};
use crate::stats::{Stats, StatsView};
use crate::table::{has_row, lemma_insert_point_unique, Table, TableView};
use crate::table_scan::{passes, passing_rows};
use crate::text::{copy_strings, position};
use crate::value::{is_value_order, Order};
use crate::wal::{
    apply_all, apply_all_error, apply_error, applied, duplicate_records, is_marker, records_view, replay_error, replay_from, replay_wal, replayed,
    table_insert, RecordView, WalRecord,
};
use crate::condition::conditions_view;

verus! {

broadcast use vstd::string::group_string_axioms;

/// A table under its name.
#[derive(Debug)]
pub struct NamedTable {
    pub name: String,
    pub table: Table,
}

impl Keyed for NamedTable {
    open spec fn key_view(&self) -> Seq<char> {
        self.name@
    }

    fn key(&self) -> (r: &String) {
        &self.name
    }
}

/// The writes of an open transaction, in order.
#[derive(Debug)]
pub struct Transaction {
    pub records: Vec<WalRecord>,
}

impl Transaction {
    /// A transaction with no writes yet.
    pub fn new() -> (t: Transaction)
        ensures
            t.records@.len() == 0,
    {
        Transaction { records: Vec::new() }
    }

    /// Whether the transaction holds no write.
    pub fn is_empty(&self) -> (r: bool)
        ensures
            r == (self.records@.len() == 0),
    {
        self.records.len() == 0
    }
}

/// The database.
#[derive(Debug)]
pub struct Database {
    pub tables: Vec<NamedTable>,
    pub stats: Stats,
    pub wal_path: Option<String>,
    pub active_transaction: Option<Transaction>,
}

/// The contents of a database.
pub struct DatabaseView {
    pub tables: Map<Seq<char>, TableView>,
    pub stats: StatsView,
    pub wal_path: Option<Seq<char>>,
    /// The writes of the open transaction, if one is open.
    pub pending: Option<Seq<RecordView>>,
}

pub open spec fn table_pairs(ts: Seq<NamedTable>) -> Seq<(Seq<char>, TableView)> {
    ts.map_values(|t: NamedTable| (t.name@, t.table@))
}

impl View for Database {
    type V = DatabaseView;

    open spec fn view(&self) -> DatabaseView {
        DatabaseView {
            tables: to_map(table_pairs(self.tables@)),
            stats: self.stats@,
            wal_path: match self.wal_path {
                Some(p) => Some(p@),
                None => None,
            },
            pending: match self.active_transaction {
                Some(t) => Some(records_view(t.records@)),
                None => None,
            },
        }
    }
}

/// The result that applying a write reports.
pub open spec fn write_result<O: Fn(&str, &str) -> Option<Order>>(
    order: O,
    tables: Map<Seq<char>, TableView>,
    rec: RecordView,
) -> ExecutionResult {
    match rec {
        RecordView::Update { table, conditions, .. } => ExecutionResult::Update {
            count: passing_rows(order, tables[table], conditions).len() as usize,
        },
        RecordView::Delete { table, conditions } => ExecutionResult::Delete {
            count: passing_rows(order, tables[table], conditions).len() as usize,
        },
        RecordView::CreateTable { .. } => ExecutionResult::CreateTable,
        RecordView::CreateIndex { .. } => ExecutionResult::CreateIndex,
        RecordView::DropIndex { .. } => ExecutionResult::DropIndex,
        _ => ExecutionResult::Insert { count: 1 },
    }
}

/// The tables after an index named after `column` is built on `table`
/// where the column has none; `None` when the table lacks the column.
pub open spec fn auto_indexed(
    tables: Map<Seq<char>, TableView>,
    table: Seq<char>,
    column: Seq<char>,
) -> Option<Map<Seq<char>, TableView>> {
    if !tables.contains_key(table) || tables[table].indexes.contains_key(column) {
        Some(tables)
    } else if position(tables[table].columns, column) is None {
        None
    } else {
        Some(tables.insert(table, tables[table].with_index(column, column)))
    }
}

/// Opening a transaction: an error (`已有活跃事务`) when one is open already.
pub open spec fn begin_ok(old_db: DatabaseView, new_db: DatabaseView, r: Result<(), String>) -> bool {
    &&& (r is Err <==> old_db.pending is Some)
    &&& r is Err ==> new_db == old_db
    &&& r matches Err(e) ==> e@ == "已有活跃事务"@
    &&& r is Ok ==> new_db == (DatabaseView { pending: Some(Seq::empty()), ..old_db })
}

/// Committing: the transaction closes; an empty one is done at once, one
/// with writes asks for `Begin`, its writes and `Commit` to be logged and
/// then applies the writes. No open transaction (`没有活跃事务`), or writes
/// but no log (`未设置 WAL 路径，无法提交事务`), is an error.
pub open spec fn commit_ok(old_db: DatabaseView, new_db: DatabaseView, r: Result<Step, String>) -> bool {
    &&& new_db == (DatabaseView { pending: None, ..old_db })
    &&& (r is Err <==> (old_db.pending is None || (old_db.pending->0.len() > 0 && old_db.wal_path is None)))
    &&& (r matches Err(e) ==> e@ == if old_db.pending is None {
        "没有活跃事务"@
    } else {
        "未设置 WAL 路径，无法提交事务"@
    })
    &&& (r matches Ok(Step::Done(res)) ==> res is CommitTransaction && old_db.pending == Some(Seq::<RecordView>::empty()))
    &&& (r matches Ok(Step::Log(req)) ==> {
        let recs = old_db.pending->0;
        &&& recs.len() > 0
        &&& old_db.wal_path == Some(req.path@)
        &&& records_view(req.records@) == seq![RecordView::Begin] + recs + seq![RecordView::Commit]
        &&& req.after@ == crate::outcome::AfterLogView::ApplyAll(recs)
    })
}

/// Rolling back: the transaction closes and its writes are dropped; when
/// it held writes and there is a log, `Rollback` is to be logged. No open
/// transaction is an error (`没有活跃事务`).
pub open spec fn rollback_ok(old_db: DatabaseView, new_db: DatabaseView, r: Result<Step, String>) -> bool {
    &&& new_db == (DatabaseView { pending: None, ..old_db })
    &&& (r is Err <==> old_db.pending is None)
    &&& (r matches Err(e) ==> e@ == "没有活跃事务"@)
    &&& (r matches Ok(Step::Done(res)) ==> res is RollbackTransaction && (old_db.wal_path is None || old_db.pending
        == Some(Seq::<RecordView>::empty())))
    &&& (r matches Ok(Step::Log(req)) ==> {
        &&& old_db.pending->0.len() > 0
        &&& old_db.wal_path == Some(req.path@)
        &&& records_view(req.records@) == seq![RecordView::Rollback]
        &&& req.after@ == crate::outcome::AfterLogView::RolledBack
    })
}

/// Taking a write: held in an open transaction; else logged first when
/// there is a log; else applied at once (a transaction marker is no write
/// and is an error).
pub open spec fn write_ok<O: Fn(&str, &str) -> Option<Order>>(
    order: O,
    old_db: DatabaseView,
    new_db: DatabaseView,
    rec: RecordView,
    r: Result<Step, String>,
) -> bool {
    match old_db.pending {
        Some(p) => {
            &&& r matches Ok(Step::Done(res))
            &&& res is Pending
            &&& new_db == (DatabaseView { pending: Some(p.push(rec)), ..old_db })
        },
        None => match old_db.wal_path {
            Some(path) => {
                &&& new_db == old_db
                &&& r matches Ok(Step::Log(req))
                &&& path == req.path@
                &&& records_view(req.records@) == seq![RecordView::Begin, rec, RecordView::Commit]
                &&& req.after@ == crate::outcome::AfterLogView::Apply(rec)
            },
            None => {
                &&& r matches Err(e) ==> e@ == apply_error(old_db.tables, rec)
                &&& is_marker(rec) ==> r is Err && new_db == old_db
                &&& !is_marker(rec) ==> {
                    &&& (r is Ok <==> applied(order, old_db.tables, rec) is Some)
                    &&& new_db == (DatabaseView {
                        tables: match applied(order, old_db.tables, rec) {
                            Some(t) => t,
                            None => old_db.tables,
                        },
                        ..old_db
                    })
                    &&& (r is Err || (r matches Ok(Step::Done(res)) && res == write_result(order, old_db.tables, rec)))
                }
            },
        },
    }
}

/// Replacing the table at position `i` keeps the names and gives the map its
/// new table.
pub(crate) proof fn lemma_table_replaced(old_ts: Seq<NamedTable>, new_ts: Seq<NamedTable>, i: int)
    requires
        keys_distinct(table_pairs(old_ts)),
        0 <= i < old_ts.len(),
        new_ts.len() == old_ts.len(),
        new_ts[i].name@ == old_ts[i].name@,
        forall|j: int| 0 <= j < old_ts.len() && j != i ==> #[trigger] new_ts[j] == old_ts[j],
    ensures
        keys_distinct(table_pairs(new_ts)),
        to_map(table_pairs(new_ts)) == to_map(table_pairs(old_ts)).insert(old_ts[i].name@, new_ts[i].table@),
{
    let op = table_pairs(old_ts);
    assert(table_pairs(new_ts) =~= op.update(i, (op[i].0, new_ts[i].table@)));
    lemma_map_update(op, i, new_ts[i].table@);
}

/// Every table of a well-formed database is well formed.
pub proof fn lemma_table_view_wf(db: &Database, name: Seq<char>)
    requires
        db.wf(),
        db@.tables.contains_key(name),
    ensures
        db@.tables[name].wf(),
{
    let tp = table_pairs(db.tables@);
    let q = choose|q: int| 0 <= q < tp.len() && #[trigger] tp[q].0 == name;
    lemma_map_at(tp, q);
    assert(db.tables@[q].table.wf());
}

impl Database {
    /// Names are not repeated, and every table and the statistics are well
    /// formed.
    pub open spec fn wf(&self) -> bool {
        &&& keys_distinct(table_pairs(self.tables@))
        &&& forall|j: int| 0 <= j < self.tables@.len() ==> (#[trigger] self.tables@[j]).table.wf()
        &&& self.stats.wf()
    }

    /// An empty database whose statistics suggest an index after `threshold`
    /// lookups.
    pub fn new(threshold: u32) -> (db: Database)
        ensures
            db.wf(),
            db@.tables == Map::<Seq<char>, TableView>::empty(),
            db@.stats.counts == Map::<Seq<char>, u32>::empty(),
            db@.stats.threshold == threshold,
            db@.wal_path is None,
            db@.pending is None,
    {
        let db = Database {
            tables: Vec::new(),
            stats: Stats::new(threshold),
            wal_path: None,
            active_transaction: None,
        };
        assert(db@.tables =~= Map::<Seq<char>, TableView>::empty());
        db
    }

    /// Sets where the log is written.
    pub fn set_wal_path(&mut self, path: &str)
        requires
            old(self).wf(),
        ensures
            final(self).wf(),
            final(self)@ == (DatabaseView { wal_path: Some(path@), ..old(self)@ }),
    {
        self.wal_path = Some(path.to_string());
    }

    /// Adds an empty table `name` with the given columns, replacing any
    /// table of that name.
    pub fn add_table(&mut self, name: &str, columns: Vec<String>)
        requires
            old(self).wf(),
        ensures
            final(self).wf(),
            final(self)@ == (DatabaseView {
                tables: old(self)@.tables.insert(name@, TableView::fresh(columns.deep_view())),
                ..old(self)@
            }),
    {
        let n = name.to_string();
        let ghost tp = table_pairs(self.tables@);
        let t = Table::new(columns);
        match find_key(&self.tables, &n) {
            Some(i) => {
                self.tables.set(i, NamedTable { name: n, table: t });
                proof {
                    lemma_table_replaced(old(self).tables@, self.tables@, i as int);
                }
            },
            None => {
                proof {
                    assert forall|q: int| 0 <= q < tp.len() implies #[trigger] tp[q].0 != n@ by {
                        assert(old(self).tables@[q].key_view() != n@);
                    }
                    lemma_map_push(tp, n@, t@);
                }
                let ghost nt = NamedTable { name: n, table: t };
                self.tables.push(NamedTable { name: n, table: t });
                proof {
                    assert(table_pairs(self.tables@) =~= tp.push((n@, t@)));
                    assert forall|j: int| 0 <= j < self.tables@.len() implies (#[trigger] self.tables@[j]).table.wf() by {
                        if j < tp.len() {
                            assert(self.tables@[j] == old(self).tables@[j]);
                        }
                    }
                }
            },
        }
    }

    /// The position of the table `name`.
    pub fn find_table(&self, name: &String) -> (r: Option<usize>)
        requires
            self.wf(),
        ensures
            match r {
                Some(i) => i < self.tables@.len() && self.tables@[i as int].name@ == name@
                    && self@.tables.contains_key(name@)
                    && self@.tables[name@] == self.tables@[i as int].table@,
                None => !self@.tables.contains_key(name@),
            },
    {
        let ghost tp = table_pairs(self.tables@);
        let r = find_key(&self.tables, name);
        proof {
            match r {
                Some(i) => {
                    lemma_map_at(tp, i as int);
                },
                None => {
                    assert forall|q: int| 0 <= q < tp.len() implies #[trigger] tp[q].0 != name@ by {
                        assert(self.tables@[q].key_view() != name@);
                    }
                },
            }
        }
        r
    }

    /// Opens a transaction; one already open is an error.
    pub fn begin_transaction(&mut self) -> (r: Result<(), String>)
        requires
            old(self).wf(),
        ensures
            final(self).wf(),
            begin_ok(old(self)@, final(self)@, r),
    {
        if self.active_transaction.is_some() {
            return Err("已有活跃事务".to_string());
        }
        let t = Transaction::new();
        proof {
            assert(records_view(t.records@) =~= Seq::<RecordView>::empty());
        }
        self.active_transaction = Some(t);
        Ok(())
    }

    /// Closes the open transaction for commit. Its writes take effect only
    /// after the log holds them: for a transaction with writes the step asks
    /// for `Begin`, the writes and `Commit` to be logged, then applies the
    /// writes. An empty transaction is done at once. No open transaction, or
    /// writes but no log, is an error; the transaction is closed either way.
    pub fn commit_transaction(&mut self) -> (r: Result<Step, String>)
        requires
            old(self).wf(),
        ensures
            final(self).wf(),
            commit_ok(old(self)@, final(self)@, r),
    {
        let tx = match self.active_transaction.take() {
            Some(tx) => tx,
            None => {
                return Err("没有活跃事务".to_string());
            },
        };
        if tx.is_empty() {
            proof {
                assert(records_view(tx.records@) =~= Seq::<RecordView>::empty());
            }
            return Ok(Step::Done(ExecutionResult::CommitTransaction));
        }
        let path = match &self.wal_path {
            Some(p) => p.clone(),
            None => {
                return Err("未设置 WAL 路径，无法提交事务".to_string());
            },
        };
        let ghost recs = records_view(tx.records@);
        let mut records: Vec<WalRecord> = Vec::new();
        records.push(WalRecord::Begin);
        let mut i: usize = 0;
        while i < tx.records.len()
            invariant
                i <= tx.records@.len(),
                recs == records_view(tx.records@),
                records@.len() == i + 1,
                records@[0]@ == RecordView::Begin,
                forall|j: int| 0 <= j < i ==> #[trigger] records@[j + 1]@ == recs[j],
            decreases tx.records@.len() - i,
        {
            records.push(tx.records[i].duplicate());
            i = i + 1;
        }
        let ghost before = records@;
        records.push(WalRecord::Commit);
        proof {
            let exp = seq![RecordView::Begin] + recs + seq![RecordView::Commit];
            assert forall|j: int| 0 <= j < records@.len() implies #[trigger] records_view(records@)[j] == exp[j] by {
                if 1 <= j <= recs.len() {
                    assert(records@[j] == before[(j - 1) + 1]);
                }
            }
            assert(records_view(records@) =~= exp);
        }
        Ok(Step::Log(LogRequest { path, records, after: AfterLog::ApplyAll(tx.records) }))
    }

    /// Closes the open transaction and drops its writes. When it held
    /// writes and there is a log, the step asks for `Rollback` to be logged.
    /// No open transaction is an error.
    pub fn rollback_transaction(&mut self) -> (r: Result<Step, String>)
        requires
            old(self).wf(),
        ensures
            final(self).wf(),
            rollback_ok(old(self)@, final(self)@, r),
    {
        let tx = match self.active_transaction.take() {
            Some(tx) => tx,
            None => {
                return Err("没有活跃事务".to_string());
            },
        };
        match &self.wal_path {
            Some(p) => {
                if !tx.is_empty() {
                    let records = vec![WalRecord::Rollback];
                    proof {
                        assert(records_view(records@) =~= seq![RecordView::Rollback]);
                    }
                    return Ok(Step::Log(LogRequest { path: p.clone(), records, after: AfterLog::RolledBack }));
                }
                proof {
                    assert(records_view(tx.records@) =~= Seq::<RecordView>::empty());
                }
            },
            None => {},
        }
        Ok(Step::Done(ExecutionResult::RollbackTransaction))
    }

    /// Applies one log record to the tables. A write to a table that does
    /// not exist, and any error of the table, leave the database as it was;
    /// transaction markers change nothing.
    pub fn apply_wal_record<O: Fn(&str, &str) -> Option<Order>>(&mut self, record: &WalRecord, order: &O) -> (r:
        Result<(), String>)
        requires
            old(self).wf(),
            is_value_order(*order),
        ensures
            final(self).wf(),
            r is Ok <==> applied(*order, old(self)@.tables, record@) is Some,
            r matches Err(e) ==> e@ == apply_error(old(self)@.tables, record@),
            final(self)@ == (DatabaseView {
                tables: match applied(*order, old(self)@.tables, record@) {
                    Some(t) => t,
                    None => old(self)@.tables,
                },
                ..old(self)@
            }),
    {
        let ghost t0 = self@.tables;
        match record {
            WalRecord::CreateTable { name, columns } => {
                if self.find_table(name).is_none() {
                    self.add_table(name.as_str(), copy_strings(columns));
                }
                Ok(())
            },
            WalRecord::CreateIndex { table, index_name, column } => {
                match self.find_table(table) {
                    Some(i) => {
                        if !self.tables[i].table.has_index(column) {
                            let res = self.tables[i].table.build_index(index_name.as_str(), column.as_str());
                            proof {
                                lemma_table_replaced(old(self).tables@, self.tables@, i as int);
                                self.lemma_tables_wf_after(old(self).tables@, i as int);
                            }
                            match res {
                                Ok(()) => {},
                                Err(e) => {
                                    proof {
                                        assert(self@.tables =~= t0);
                                    }
                                    return Err(e);
                                },
                            }
                        }
                        Ok(())
                    },
                    None => Ok(()),
                }
            },
            WalRecord::DropIndex { table, index_name } => {
                match self.find_table(table) {
                    Some(i) => {
                        self.tables[i].table.drop_index(index_name.as_str());
                        proof {
                            lemma_table_replaced(old(self).tables@, self.tables@, i as int);
                            self.lemma_tables_wf_after(old(self).tables@, i as int);
                        }
                        Ok(())
                    },
                    None => Ok(()),
                }
            },
            WalRecord::Insert { table, id, values } => {
                let i = match self.find_table(table) {
                    Some(i) => i,
                    None => {
                        return Err("表不存在".to_string());
                    },
                };
                let ghost tv = self.tables@[i as int].table@;
                let res = if *id == 0 {
                    if self.tables[i].table.next_id == u64::MAX {
                        return Err("行 id 已用尽".to_string());
                    }
                    match self.tables[i].table.insert_row(copy_strings(values)) {
                        Ok(_) => Ok(()),
                        Err(e) => Err(e),
                    }
                } else {
                    if *id == u64::MAX {
                        proof {
                            assert(!has_row(tv.rows, *id)) by {
                                if has_row(tv.rows, *id) {
                                    let q = choose|q: int| 0 <= q < tv.rows.len() && #[trigger] tv.rows[q].0 == *id;
                                    assert(tv.rows[q].0 < tv.next_id);
                                }
                            }
                        }
                        return Err("行 id 已用尽".to_string());
                    }
                    self.tables[i].table.insert_row_with_id(*id, copy_strings(values))
                };
                proof {
                    lemma_table_replaced(old(self).tables@, self.tables@, i as int);
                    self.lemma_tables_wf_after(old(self).tables@, i as int);
                }
                match res {
                    Ok(()) => Ok(()),
                    Err(e) => {
                        proof {
                            assert(self@.tables =~= t0);
                        }
                        Err(e)
                    },
                }
            },
            WalRecord::Update { table, conditions, set_col, set_val } => {
                let i = match self.find_table(table) {
                    Some(i) => i,
                    None => {
                        return Err("表不存在".to_string());
                    },
                };
                let res = self.tables[i].table.update_rows(conditions, set_col.as_str(), set_val.as_str(), order);
                proof {
                    lemma_table_replaced(old(self).tables@, self.tables@, i as int);
                    self.lemma_tables_wf_after(old(self).tables@, i as int);
                }
                match res {
                    Ok(_) => Ok(()),
                    Err(e) => {
                        proof {
                            assert(self@.tables =~= t0);
                        }
                        Err(e)
                    },
                }
            },
            WalRecord::Delete { table, conditions } => {
                let i = match self.find_table(table) {
                    Some(i) => i,
                    None => {
                        return Err("表不存在".to_string());
                    },
                };
                let res = self.tables[i].table.delete_rows(conditions, order);
                proof {
                    lemma_table_replaced(old(self).tables@, self.tables@, i as int);
                    self.lemma_tables_wf_after(old(self).tables@, i as int);
                }
                match res {
                    Ok(_) => Ok(()),
                    Err(e) => Err(e),
                }
            },
            _ => Ok(()),
        }
    }

    /// Applies one write and reports its result: the number of rows for an
    /// update or a delete, one row for an insert. A transaction marker is
    /// no write and is an error.
    pub fn apply_wal_record_to_result<O: Fn(&str, &str) -> Option<Order>>(
        &mut self,
        record: &WalRecord,
        order: &O,
    ) -> (r: Result<ExecutionResult, String>)
        requires
            old(self).wf(),
            is_value_order(*order),
        ensures
            final(self).wf(),
            is_marker(record@) ==> r is Err && final(self)@ == old(self)@,
            r matches Err(e) ==> e@ == apply_error(old(self)@.tables, record@),
            !is_marker(record@) ==> {
                &&& (r is Ok <==> applied(*order, old(self)@.tables, record@) is Some)
                &&& final(self)@ == (DatabaseView {
                    tables: match applied(*order, old(self)@.tables, record@) {
                        Some(t) => t,
                        None => old(self)@.tables,
                    },
                    ..old(self)@
                })
                &&& (r matches Ok(res) ==> res == write_result(*order, old(self)@.tables, record@))
            },
    {
        match record {
            WalRecord::Begin | WalRecord::Commit | WalRecord::Rollback => Err("不支持的操作".to_string()),
            WalRecord::Update { table, conditions, set_col, set_val } => {
                let i = match self.find_table(table) {
                    Some(i) => i,
                    None => {
                        return Err("表不存在".to_string());
                    },
                };
                let ghost t0 = self@.tables;
                let res = self.tables[i].table.update_rows(conditions, set_col.as_str(), set_val.as_str(), order);
                proof {
                    lemma_table_replaced(old(self).tables@, self.tables@, i as int);
                    self.lemma_tables_wf_after(old(self).tables@, i as int);
                }
                match res {
                    Ok(count) => Ok(ExecutionResult::Update { count }),
                    Err(e) => {
                        proof {
                            assert(self@.tables =~= t0);
                        }
                        Err(e)
                    },
                }
            },
            WalRecord::Delete { table, conditions } => {
                let i = match self.find_table(table) {
                    Some(i) => i,
                    None => {
                        return Err("表不存在".to_string());
                    },
                };
                let res = self.tables[i].table.delete_rows(conditions, order);
                proof {
                    lemma_table_replaced(old(self).tables@, self.tables@, i as int);
                    self.lemma_tables_wf_after(old(self).tables@, i as int);
                }
                match res {
                    Ok(count) => Ok(ExecutionResult::Delete { count }),
                    Err(e) => Err(e),
                }
            },
            WalRecord::Insert { .. } => {
                match self.apply_wal_record(record, order) {
                    Ok(()) => Ok(ExecutionResult::Insert { count: 1 }),
                    Err(e) => Err(e),
                }
            },
            WalRecord::CreateTable { .. } => {
                match self.apply_wal_record(record, order) {
                    Ok(()) => Ok(ExecutionResult::CreateTable),
                    Err(e) => Err(e),
                }
            },
            WalRecord::CreateIndex { .. } => {
                match self.apply_wal_record(record, order) {
                    Ok(()) => Ok(ExecutionResult::CreateIndex),
                    Err(e) => Err(e),
                }
            },
            WalRecord::DropIndex { .. } => {
                match self.apply_wal_record(record, order) {
                    Ok(()) => Ok(ExecutionResult::DropIndex),
                    Err(e) => Err(e),
                }
            },
        }
    }

    /// Applies records in order and stops at the first error.
    pub fn apply_records<O: Fn(&str, &str) -> Option<Order>>(&mut self, records: &Vec<WalRecord>, order: &O) -> (r:
        Result<(), String>)
        requires
            old(self).wf(),
            is_value_order(*order),
        ensures
            final(self).wf(),
            (r is Ok) == apply_all(*order, old(self)@.tables, records_view(records@)).1,
            r matches Err(e) ==> e@ == apply_all_error(*order, old(self)@.tables, records_view(records@)),
            final(self)@ == (DatabaseView {
                tables: apply_all(*order, old(self)@.tables, records_view(records@)).0,
                ..old(self)@
            }),
    {
        let ghost all = records_view(records@);
        let mut i: usize = 0;
        proof {
            assert(all.skip(0) =~= all);
        }
        while i < records.len()
            invariant
                self.wf(),
                is_value_order(*order),
                i <= records@.len(),
                all == records_view(records@),
                self@.stats == old(self)@.stats,
                self@.wal_path == old(self)@.wal_path,
                self@.pending == old(self)@.pending,
                apply_all(*order, old(self)@.tables, all) == apply_all(*order, self@.tables, all.skip(i as int)),
                apply_all_error(*order, old(self)@.tables, all) == apply_all_error(*order, self@.tables, all.skip(i as int)),
            decreases records@.len() - i,
        {
            proof {
                assert(all.skip(i as int).drop_first() =~= all.skip(i + 1));
                assert(all.skip(i as int)[0] == records@[i as int]@);
            }
            match self.apply_wal_record(&records[i], order) {
                Ok(()) => {},
                Err(e) => {
                    return Err(e);
                },
            }
            i = i + 1;
        }
        proof {
            assert(all.skip(i as int) =~= Seq::<RecordView>::empty());
        }
        Ok(())
    }

    /// Takes a write: inside a transaction it is held and has no effect yet;
    /// otherwise, when there is a log, the step asks for `Begin`, the write
    /// and `Commit` to be logged before it applies; with no log it applies
    /// at once.
    pub fn handle_write<O: Fn(&str, &str) -> Option<Order>>(&mut self, record: WalRecord, order: &O) -> (r:
        Result<Step, String>)
        requires
            old(self).wf(),
            is_value_order(*order),
        ensures
            final(self).wf(),
            write_ok(*order, old(self)@, final(self)@, record@, r),
    {
        match self.active_transaction.take() {
            Some(mut tx) => {
                let ghost before = tx.records@;
                tx.records.push(record);
                proof {
                    assert(records_view(tx.records@) =~= records_view(before).push(record@));
                }
                self.active_transaction = Some(tx);
                return Ok(Step::Done(ExecutionResult::Pending));
            },
            None => {},
        }
        match &self.wal_path {
            Some(p) => {
                let path = p.clone();
                let records = vec![WalRecord::Begin, record.duplicate(), WalRecord::Commit];
                proof {
                    assert(records_view(records@) =~= seq![RecordView::Begin, record@, RecordView::Commit]);
                }
                Ok(Step::Log(LogRequest { path, records, after: AfterLog::Apply(record) }))
            },
            None => {
                match self.apply_wal_record_to_result(&record, order) {
                    Ok(res) => Ok(Step::Done(res)),
                    Err(e) => Err(e),
                }
            },
        }
    }

    /// Finishes a step once its log records have been written (`logged` is
    /// `Ok`) or have failed to be (the error is returned, nothing changes).
    pub fn resume<O: Fn(&str, &str) -> Option<Order>>(
        &mut self,
        after: AfterLog,
        logged: Result<(), String>,
        order: &O,
    ) -> (r: Result<ExecutionResult, String>)
        requires
            old(self).wf(),
            is_value_order(*order),
        ensures
            final(self).wf(),
            logged matches Err(e) ==> r == Err::<ExecutionResult, String>(e) && final(self)@ == old(self)@,
            logged is Ok ==> match after@ {
                crate::outcome::AfterLogView::Apply(rec) => {
                    &&& r matches Err(e) ==> e@ == apply_error(old(self)@.tables, rec)
                    &&& is_marker(rec) ==> r is Err && final(self)@ == old(self)@
                    &&& !is_marker(rec) ==> {
                        &&& (r is Ok <==> applied(*order, old(self)@.tables, rec) is Some)
                        &&& final(self)@ == (DatabaseView {
                            tables: match applied(*order, old(self)@.tables, rec) {
                                Some(t) => t,
                                None => old(self)@.tables,
                            },
                            ..old(self)@
                        })
                        &&& (r matches Ok(res) ==> res == write_result(*order, old(self)@.tables, rec))
                    }
                },
                crate::outcome::AfterLogView::ApplyAll(recs) => {
                    &&& (r is Ok) == apply_all(*order, old(self)@.tables, recs).1
                    &&& (r matches Err(e) ==> e@ == apply_all_error(*order, old(self)@.tables, recs))
                    &&& (r matches Ok(res) ==> res is CommitTransaction)
                    &&& final(self)@ == (DatabaseView {
                        tables: apply_all(*order, old(self)@.tables, recs).0,
                        ..old(self)@
                    })
                },
                crate::outcome::AfterLogView::RolledBack => {
                    &&& (r matches Ok(res) && res is RollbackTransaction)
                    &&& final(self)@ == old(self)@
                },
            },
    {
        match logged {
            Err(e) => Err(e),
            Ok(()) => match after {
                AfterLog::Apply(rec) => self.apply_wal_record_to_result(&rec, order),
                AfterLog::ApplyAll(recs) => {
                    match self.apply_records(&recs, order) {
                        Ok(()) => Ok(ExecutionResult::CommitTransaction),
                        Err(e) => Err(e),
                    }
                },
                AfterLog::RolledBack => Ok(ExecutionResult::RollbackTransaction),
            },
        }
    }

    /// Recovers from the records of the log: when a log is set, they are
    /// replayed as `replay_wal` does; with no log nothing happens.
    pub fn recover<O: Fn(&str, &str) -> Option<Order>>(&mut self, records: &Vec<WalRecord>, order: &O) -> (r:
        Result<(), String>)
        requires
            old(self).wf(),
            is_value_order(*order),
        ensures
            final(self).wf(),
            old(self)@.wal_path is None ==> r is Ok && final(self)@ == old(self)@,
            old(self)@.wal_path is Some ==> {
                &&& (r is Ok) == replayed(*order, old(self)@.tables, records_view(records@)).1
                &&& (r matches Err(e) ==> e@ == replay_error(
                    *order,
                    old(self)@.tables,
                    false,
                    Seq::empty(),
                    records_view(records@),
                ))
                &&& final(self)@ == (DatabaseView {
                    tables: replayed(*order, old(self)@.tables, records_view(records@)).0,
                    ..old(self)@
                })
            },
    {
        if self.wal_path.is_some() {
            replay_wal(records, self, order)
        } else {
            Ok(())
        }
    }

    /// Builds an index on `column` of `table`, named after the column,
    /// unless the table does not exist or the column has an index already.
    /// A column the table does not have is an error.
    pub fn ensure_index(&mut self, table: &String, column: &String) -> (r: Result<(), String>)
        requires
            old(self).wf(),
        ensures
            final(self).wf(),
            (r is Ok) == (auto_indexed(old(self)@.tables, table@, column@) is Some),
            r matches Err(e) ==> e@ == "Column not found"@,
            final(self)@ == (DatabaseView {
                tables: match auto_indexed(old(self)@.tables, table@, column@) {
                    Some(t) => t,
                    None => old(self)@.tables,
                },
                ..old(self)@
            }),
    {
        let ghost t0 = self@.tables;
        match self.find_table(table) {
            Some(i) => {
                if self.tables[i].table.has_index(column) {
                    return Ok(());
                }
                let res = self.tables[i].table.build_index(column.as_str(), column.as_str());
                proof {
                    lemma_table_replaced(old(self).tables@, self.tables@, i as int);
                    self.lemma_tables_wf_after(old(self).tables@, i as int);
                }
                match res {
                    Ok(()) => Ok(()),
                    Err(e) => {
                        proof {
                            assert(self@.tables =~= t0);
                        }
                        Err(e)
                    },
                }
            },
            None => Ok(()),
        }
    }

    /// After one table changed in place, every table is still well formed.
    pub(crate) proof fn lemma_tables_wf_after(&self, old_ts: Seq<NamedTable>, i: int)
        requires
            forall|j: int| 0 <= j < old_ts.len() ==> (#[trigger] old_ts[j]).table.wf(),
            0 <= i < old_ts.len(),
            self.tables@.len() == old_ts.len(),
            self.tables@[i].table.wf(),
            forall|j: int| 0 <= j < old_ts.len() && j != i ==> #[trigger] self.tables@[j] == old_ts[j],
        ensures
            forall|j: int| 0 <= j < self.tables@.len() ==> (#[trigger] self.tables@[j]).table.wf(),
    {
        assert forall|j: int| 0 <= j < self.tables@.len() implies (#[trigger] self.tables@[j]).table.wf() by {
            if j != i {
                assert(self.tables@[j] == old_ts[j]);
            }
        }
    }
}

} // verus!
