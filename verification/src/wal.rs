//! Write-ahead log records, what applying one does to the tables, and what
//! replaying a log does.
use vstd::prelude::*;
use crate::condition::{conditions_view, duplicate_conditions, Condition, ConditionView};
use crate::table::{has_row, TableView};
use crate::table_scan::passes;
use crate::text::{copy_strings, position};
use crate::value::{is_value_order, Order};
use crate::database::{Database, DatabaseView};

verus! {

broadcast use vstd::string::group_string_axioms;

/// One record of the log.
#[derive(Debug)]
pub enum WalRecord {
    Begin,
    Commit,
    Rollback,
    CreateTable { name: String, columns: Vec<String> },
    CreateIndex { table: String, index_name: String, column: String },
    DropIndex { table: String, index_name: String },
    /// A row for `table`; id 0 asks for the table's next id.
    Insert { table: String, id: u64, values: Vec<String> },
    Update { table: String, conditions: Vec<Condition>, set_col: String, set_val: String },
    Delete { table: String, conditions: Vec<Condition> },
}

/// The contents of a log record.
pub enum RecordView {
    Begin,
    Commit,
    Rollback,
    CreateTable { name: Seq<char>, columns: Seq<Seq<char>> },
    CreateIndex { table: Seq<char>, index_name: Seq<char>, column: Seq<char> },
    DropIndex { table: Seq<char>, index_name: Seq<char> },
    Insert { table: Seq<char>, id: u64, values: Seq<Seq<char>> },
    Update {
        table: Seq<char>,
        conditions: Seq<ConditionView>,
        set_col: Seq<char>,
        set_val: Seq<char>,
    },
    Delete { table: Seq<char>, conditions: Seq<ConditionView> },
}

impl View for WalRecord {
    type V = RecordView;

    open spec fn view(&self) -> RecordView {
        match self {
            WalRecord::Begin => RecordView::Begin,
            WalRecord::Commit => RecordView::Commit,
            WalRecord::Rollback => RecordView::Rollback,
            WalRecord::CreateTable { name, columns } => RecordView::CreateTable {
                name: name@,
                columns: columns.deep_view(),
            },
            WalRecord::CreateIndex { table, index_name, column } => RecordView::CreateIndex {
                table: table@,
                index_name: index_name@,
                column: column@,
            },
            WalRecord::DropIndex { table, index_name } => RecordView::DropIndex {
                table: table@,
                index_name: index_name@,
            },
            WalRecord::Insert { table, id, values } => RecordView::Insert {
                table: table@,
                id: *id,
                values: values.deep_view(),
            },
            WalRecord::Update { table, conditions, set_col, set_val } => RecordView::Update {
                table: table@,
                conditions: conditions_view(conditions@),
                set_col: set_col@,
                set_val: set_val@,
            },
            WalRecord::Delete { table, conditions } => RecordView::Delete {
                table: table@,
                conditions: conditions_view(conditions@),
            },
        }
    }
}

/// The contents of a list of records.
pub open spec fn records_view(rs: Seq<WalRecord>) -> Seq<RecordView> {
    rs.map_values(|r: WalRecord| r@)
}

impl WalRecord {
    /// A copy of this record.
    pub fn duplicate(&self) -> (r: WalRecord)
        ensures
            r@ == self@,
    {
        match self {
            WalRecord::Begin => WalRecord::Begin,
            WalRecord::Commit => WalRecord::Commit,
            WalRecord::Rollback => WalRecord::Rollback,
            WalRecord::CreateTable { name, columns } => WalRecord::CreateTable {
                name: name.clone(),
                columns: copy_strings(columns),
            },
            WalRecord::CreateIndex { table, index_name, column } => WalRecord::CreateIndex {
                table: table.clone(),
                index_name: index_name.clone(),
                column: column.clone(),
            },
            WalRecord::DropIndex { table, index_name } => WalRecord::DropIndex {
                table: table.clone(),
                index_name: index_name.clone(),
            },
            WalRecord::Insert { table, id, values } => WalRecord::Insert {
                table: table.clone(),
                id: *id,
                values: copy_strings(values),
            },
            WalRecord::Update { table, conditions, set_col, set_val } => WalRecord::Update {
                table: table.clone(),
                conditions: duplicate_conditions(conditions),
                set_col: set_col.clone(),
                set_val: set_val.clone(),
            },
            WalRecord::Delete { table, conditions } => WalRecord::Delete {
                table: table.clone(),
                conditions: duplicate_conditions(conditions),
            },
        }
    }
}

/// Copies of a list of records.
pub fn duplicate_records(rs: &Vec<WalRecord>) -> (r: Vec<WalRecord>)
    ensures
        records_view(r@) == records_view(rs@),
{
    let mut r: Vec<WalRecord> = Vec::new();
    let mut i: usize = 0;
    while i < rs.len()
        invariant
            i <= rs@.len(),
            r@.len() == i,
            forall|j: int| 0 <= j < i ==> #[trigger] r@[j]@ == rs@[j]@,
        decreases rs@.len() - i,
    {
        r.push(rs[i].duplicate());
        i = i + 1;
    }
    assert(records_view(r@) =~= records_view(rs@));
    r
}

/// A transaction marker rather than a write.
pub open spec fn is_marker(r: RecordView) -> bool {
    r is Begin || r is Commit || r is Rollback
}

/// What inserting `vals` under `id` makes of a table (`None` for an error):
/// id 0 takes the next id, an id already stored changes nothing, and a row
/// whose length differs from the columns, or an id that would leave no next
/// id, is an error.
pub open spec fn table_insert(tv: TableView, id: u64, vals: Seq<Seq<char>>) -> Option<TableView> {
    if vals.len() != tv.columns.len() {
        None
    } else if id == 0 {
        if tv.next_id == u64::MAX {
            None
        } else {
            Some(tv.with_row_at(tv.rows.len() as int, tv.next_id, vals))
        }
    } else if has_row(tv.rows, id) {
        Some(tv)
    } else if id == u64::MAX {
        None
    } else {
        Some(tv.with_new_row(id, vals))
    }
}

/// What applying one record does to the tables (`None` for an error, which
/// changes nothing).
pub open spec fn applied<O: Fn(&str, &str) -> Option<Order>>(
    order: O,
    tables: Map<Seq<char>, TableView>,
    rec: RecordView,
) -> Option<Map<Seq<char>, TableView>> {
    match rec {
        RecordView::CreateTable { name, columns } => Some(
            if tables.contains_key(name) {
                tables
            } else {
                tables.insert(name, TableView::fresh(columns))
            },
        ),
        RecordView::CreateIndex { table, index_name, column } => {
            if !tables.contains_key(table) || tables[table].indexes.contains_key(column) {
                Some(tables)
            } else if position(tables[table].columns, column) is None {
                None
            } else {
                Some(tables.insert(table, tables[table].with_index(index_name, column)))
            }
        },
        RecordView::DropIndex { table, index_name } => Some(
            if tables.contains_key(table) {
                tables.insert(table, tables[table].without_index(index_name))
            } else {
                tables
            },
        ),
        RecordView::Insert { table, id, values } => {
            if !tables.contains_key(table) {
                None
            } else {
                match table_insert(tables[table], id, values) {
                    Some(t) => Some(tables.insert(table, t)),
                    None => None,
                }
            }
        },
        RecordView::Update { table, conditions, set_col, set_val } => {
            if !tables.contains_key(table) {
                None
            } else if position(tables[table].columns, set_col) is None {
                None
            } else {
                let tv = tables[table];
                Some(
                    tables.insert(
                        table,
                        tv.with_update(passes(order, tv.columns, conditions), set_col, set_val),
                    ),
                )
            }
        },
        RecordView::Delete { table, conditions } => {
            if !tables.contains_key(table) {
                None
            } else {
                let tv = tables[table];
                Some(tables.insert(table, tv.without_rows_where(passes(order, tv.columns, conditions))))
            }
        },
        _ => Some(tables),
    }
}

/// The text of the error that applying `rec` to `tables` gives, where it
/// gives one (see `applied`); a transaction marker is no write.
pub open spec fn apply_error(tables: Map<Seq<char>, TableView>, rec: RecordView) -> Seq<char> {
    match rec {
        RecordView::CreateIndex { .. } => "Column not found"@,
        RecordView::Insert { table, id, .. } => if !tables.contains_key(table) {
            "表不存在"@
        } else if (id == 0 && tables[table].next_id == u64::MAX) || id == u64::MAX {
            "行 id 已用尽"@
        } else {
            "Column count mismatch"@
        },
        RecordView::Update { table, .. } => if !tables.contains_key(table) {
            "表不存在"@
        } else {
            "SET column not found"@
        },
        RecordView::Delete { .. } => "表不存在"@,
        _ => "不支持的操作"@,
    }
}

/// Applies records in order, stopping at the first error: the tables
/// reached, and whether every record applied.
pub open spec fn apply_all<O: Fn(&str, &str) -> Option<Order>>(
    order: O,
    tables: Map<Seq<char>, TableView>,
    recs: Seq<RecordView>,
) -> (Map<Seq<char>, TableView>, bool)
    decreases recs.len(),
{
    if recs.len() == 0 {
        (tables, true)
    } else {
        match applied(order, tables, recs[0]) {
            Some(t) => apply_all(order, t, recs.drop_first()),
            None => (tables, false),
        }
    }
}

/// The text of the error applying records in order stops at, where it
/// stops: that of the first record that fails.
pub open spec fn apply_all_error<O: Fn(&str, &str) -> Option<Order>>(
    order: O,
    tables: Map<Seq<char>, TableView>,
    recs: Seq<RecordView>,
) -> Seq<char>
    decreases recs.len(),
{
    if recs.len() == 0 {
        Seq::empty()
    } else {
        match applied(order, tables, recs[0]) {
            Some(t) => apply_all_error(order, t, recs.drop_first()),
            None => apply_error(tables, recs[0]),
        }
    }
}

/// Replays log records from the tables `tables`, inside a transaction that
/// holds `held` when `in_tx`: a write outside a transaction applies at once,
/// one inside is held until `Commit` applies what is held; `Begin` and
/// `Rollback` drop what is held. Stops at the first error: the tables
/// reached, and whether every record applied.
pub open spec fn replay_from<O: Fn(&str, &str) -> Option<Order>>(
    order: O,
    tables: Map<Seq<char>, TableView>,
    in_tx: bool,
    held: Seq<RecordView>,
    recs: Seq<RecordView>,
) -> (Map<Seq<char>, TableView>, bool)
    decreases recs.len(),
{
    if recs.len() == 0 {
        (tables, true)
    } else {
        let rest = recs.drop_first();
        match recs[0] {
            RecordView::Begin => replay_from(order, tables, true, Seq::empty(), rest),
            RecordView::Rollback => replay_from(order, tables, false, Seq::empty(), rest),
            RecordView::Commit => {
                if in_tx {
                    let (t, ok) = apply_all(order, tables, held);
                    if ok {
                        replay_from(order, t, false, Seq::empty(), rest)
                    } else {
                        (t, false)
                    }
                } else {
                    replay_from(order, tables, in_tx, held, rest)
                }
            },
            w => {
                if in_tx {
                    replay_from(order, tables, true, held.push(w), rest)
                } else {
                    match applied(order, tables, w) {
                        Some(t) => replay_from(order, t, false, held, rest),
                        None => (tables, false),
                    }
                }
            },
        }
    }
}

/// What replaying a whole log does, starting outside any transaction.
pub open spec fn replayed<O: Fn(&str, &str) -> Option<Order>>(
    order: O,
    tables: Map<Seq<char>, TableView>,
    recs: Seq<RecordView>,
) -> (Map<Seq<char>, TableView>, bool) {
    replay_from(order, tables, false, Seq::empty(), recs)
}

/// Inside a transaction, writes are only held.
pub proof fn lemma_replay_holds<O: Fn(&str, &str) -> Option<Order>>(
    order: O,
    tables: Map<Seq<char>, TableView>,
    held: Seq<RecordView>,
    recs: Seq<RecordView>,
    rest: Seq<RecordView>,
)
    requires
        forall|j: int| 0 <= j < recs.len() ==> !is_marker(#[trigger] recs[j]),
    ensures
        replay_from(order, tables, true, held, recs + rest) == replay_from(order, tables, true, held + recs, rest),
    decreases recs.len(),
{
    if recs.len() == 0 {
        assert(recs + rest =~= rest);
        assert(held + recs =~= held);
    } else {
        let w = recs[0];
        assert(!is_marker(recs[0]));
        assert((recs + rest)[0] == w);
        assert((recs + rest).drop_first() =~= recs.drop_first() + rest);
        assert forall|j: int| 0 <= j < recs.drop_first().len() implies !is_marker(#[trigger] recs.drop_first()[j]) by {
            assert(recs.drop_first()[j] == recs[j + 1]);
        }
        lemma_replay_holds(order, tables, held.push(w), recs.drop_first(), rest);
        assert(held.push(w) + recs.drop_first() =~= held + recs);
    }
}

/// What recovery gives back of a committed transaction: replaying `Begin`,
/// its writes and `Commit` applies the writes in order, as the commit did,
/// and the rest of the log goes on from there.
pub proof fn lemma_replay_committed<O: Fn(&str, &str) -> Option<Order>>(
    order: O,
    tables: Map<Seq<char>, TableView>,
    recs: Seq<RecordView>,
    rest: Seq<RecordView>,
)
    requires
        forall|j: int| 0 <= j < recs.len() ==> !is_marker(#[trigger] recs[j]),
    ensures
        replayed(order, tables, seq![RecordView::Begin] + recs + seq![RecordView::Commit] + rest) == {
            let (t, ok) = apply_all(order, tables, recs);
            if ok {
                replayed(order, t, rest)
            } else {
                (t, false)
            }
        },
{
    let log = seq![RecordView::Begin] + recs + seq![RecordView::Commit] + rest;
    assert(log[0] == RecordView::Begin);
    assert(log.drop_first() =~= recs + (seq![RecordView::Commit] + rest));
    lemma_replay_holds(order, tables, Seq::empty(), recs, seq![RecordView::Commit] + rest);
    assert(Seq::<RecordView>::empty() + recs =~= recs);
    let tail = seq![RecordView::Commit] + rest;
    assert(tail[0] == RecordView::Commit);
    assert(tail.drop_first() =~= rest);
}

/// A single write outside a transaction is logged as `Begin`, the write and
/// `Commit`; replaying that applies the write, as running it did.
pub proof fn lemma_replay_auto_commit<O: Fn(&str, &str) -> Option<Order>>(
    order: O,
    tables: Map<Seq<char>, TableView>,
    rec: RecordView,
    rest: Seq<RecordView>,
)
    requires
        !is_marker(rec),
    ensures
        replayed(order, tables, seq![RecordView::Begin, rec, RecordView::Commit] + rest) == match applied(
            order,
            tables,
            rec,
        ) {
            Some(t) => replayed(order, t, rest),
            None => (tables, false),
        },
{
    lemma_replay_committed(order, tables, seq![rec], rest);
    assert(seq![RecordView::Begin] + seq![rec] + seq![RecordView::Commit] =~= seq![RecordView::Begin, rec, RecordView::Commit]);
    assert(seq![rec].drop_first() =~= Seq::<RecordView>::empty());
    match applied(order, tables, rec) {
        Some(t) => {
            assert(apply_all(order, t, Seq::<RecordView>::empty()) == (t, true));
        },
        None => {},
    }
}

/// A rolled-back transaction leaves no trace: replaying `Rollback` changes
/// nothing, and neither do writes of a transaction that never reached
/// `Commit` before the log ends.
pub proof fn lemma_replay_uncommitted<O: Fn(&str, &str) -> Option<Order>>(
    order: O,
    tables: Map<Seq<char>, TableView>,
    recs: Seq<RecordView>,
    rest: Seq<RecordView>,
)
    requires
        forall|j: int| 0 <= j < recs.len() ==> !is_marker(#[trigger] recs[j]),
    ensures
        replayed(order, tables, seq![RecordView::Rollback] + rest) == replayed(order, tables, rest),
        replayed(order, tables, seq![RecordView::Begin] + recs) == (tables, true),
        replayed(order, tables, seq![RecordView::Begin] + recs + seq![RecordView::Rollback] + rest)
            == replayed(order, tables, rest),
{
    let l1 = seq![RecordView::Rollback] + rest;
    assert(l1[0] == RecordView::Rollback);
    assert(l1.drop_first() =~= rest);
    let l2 = seq![RecordView::Begin] + recs;
    assert(l2[0] == RecordView::Begin);
    assert(l2.drop_first() =~= recs + Seq::<RecordView>::empty());
    lemma_replay_holds(order, tables, Seq::empty(), recs, Seq::empty());
    let l3 = seq![RecordView::Begin] + recs + seq![RecordView::Rollback] + rest;
    assert(l3[0] == RecordView::Begin);
    assert(l3.drop_first() =~= recs + l1);
    lemma_replay_holds(order, tables, Seq::empty(), recs, l1);
}

/// The text of the error replaying records stops at, where it stops (see
/// `replay_from`).
pub open spec fn replay_error<O: Fn(&str, &str) -> Option<Order>>(
    order: O,
    tables: Map<Seq<char>, TableView>,
    in_tx: bool,
    held: Seq<RecordView>,
    recs: Seq<RecordView>,
) -> Seq<char>
    decreases recs.len(),
{
    if recs.len() == 0 {
        Seq::empty()
    } else {
        let rest = recs.drop_first();
        match recs[0] {
            RecordView::Begin => replay_error(order, tables, true, Seq::empty(), rest),
            RecordView::Rollback => replay_error(order, tables, false, Seq::empty(), rest),
            RecordView::Commit => {
                if in_tx {
                    let (t, ok) = apply_all(order, tables, held);
                    if ok {
                        replay_error(order, t, false, Seq::empty(), rest)
                    } else {
                        apply_all_error(order, tables, held)
                    }
                } else {
                    replay_error(order, tables, in_tx, held, rest)
                }
            },
            w => {
                if in_tx {
                    replay_error(order, tables, true, held.push(w), rest)
                } else {
                    match applied(order, tables, w) {
                        Some(t) => replay_error(order, t, false, held, rest),
                        None => apply_error(tables, w),
                    }
                }
            },
        }
    }
}

/// Replays a log read back from disk onto `db`: writes outside a
/// transaction apply at once, a transaction's writes apply at its `Commit`,
/// and a transaction with no `Commit` (rolled back, or cut short) has no
/// effect. Stops at the first write that fails.
pub fn replay_wal<O: Fn(&str, &str) -> Option<Order>>(
    records: &Vec<WalRecord>,
    db: &mut Database,
    order: &O,
) -> (r: Result<(), String>)
    requires
        old(db).wf(),
        is_value_order(*order),
    ensures
        final(db).wf(),
        (r is Ok) == replayed(*order, old(db)@.tables, records_view(records@)).1,
        r matches Err(e) ==> e@ == replay_error(*order, old(db)@.tables, false, Seq::empty(), records_view(records@)),
        final(db)@ == (DatabaseView {
            tables: replayed(*order, old(db)@.tables, records_view(records@)).0,
            ..old(db)@
        }),
{
    let ghost all = records_view(records@);
    let mut held: Vec<WalRecord> = Vec::new();
    let mut in_tx = false;
    let mut i: usize = 0;
    proof {
        assert(all.skip(0) =~= all);
        assert(records_view(held@) =~= Seq::<RecordView>::empty());
    }
    while i < records.len()
        invariant
            db.wf(),
            is_value_order(*order),
            i <= records@.len(),
            all == records_view(records@),
            db@.stats == old(db)@.stats,
            db@.wal_path == old(db)@.wal_path,
            db@.pending == old(db)@.pending,
            replayed(*order, old(db)@.tables, all) == replay_from(
                *order,
                db@.tables,
                in_tx,
                records_view(held@),
                all.skip(i as int),
            ),
            replay_error(*order, old(db)@.tables, false, Seq::empty(), all) == replay_error(
                *order,
                db@.tables,
                in_tx,
                records_view(held@),
                all.skip(i as int),
            ),
        decreases records@.len() - i,
    {
        proof {
            assert(all.skip(i as int).drop_first() =~= all.skip(i + 1));
            assert(all.skip(i as int)[0] == records@[i as int]@);
        }
        match &records[i] {
            WalRecord::Begin => {
                held = Vec::new();
                in_tx = true;
                proof {
                    assert(records_view(held@) =~= Seq::<RecordView>::empty());
                }
            },
            WalRecord::Commit => {
                if in_tx {
                    match db.apply_records(&held, order) {
                        Ok(()) => {},
                        Err(e) => {
                            return Err(e);
                        },
                    }
                    in_tx = false;
                    held = Vec::new();
                    proof {
                        assert(records_view(held@) =~= Seq::<RecordView>::empty());
                    }
                }
            },
            WalRecord::Rollback => {
                in_tx = false;
                held = Vec::new();
                proof {
                    assert(records_view(held@) =~= Seq::<RecordView>::empty());
                }
            },
            rec => {
                if in_tx {
                    let ghost before = held@;
                    held.push(rec.duplicate());
                    proof {
                        assert(records_view(held@) =~= records_view(before).push(rec@));
                    }
                } else {
                    match db.apply_wal_record(rec, order) {
                        Ok(()) => {},
                        Err(e) => {
                            return Err(e);
                        },
                    }
                }
            },
        }
        i = i + 1;
    }
    proof {
        assert(all.skip(i as int) =~= Seq::<RecordView>::empty());
    }
    Ok(())
}

} // verus!
