use std::sync::Mutex;
use wgc_db::database::Database;
use wgc_db::executor::execute_sql as run_statement;
use wgc_db::outcome::{ExecutionResult, Step};
use wgc_db::value::{Numeric, Order};
use wgc_db::database::NamedTable;
use wgc_db::stats::{LookupCount, Stats};
use wgc_db::table::{ColumnIndex, IndexEntry, IndexName, Row, Table};
use wgc_db::wal::WalRecord;

/// The log, kept in memory: (path, record) in the order written.
static TR_LOG: Mutex<Vec<(String, WalRecord)>> = Mutex::new(Vec::new());

fn tr_order(a: &str, b: &str) -> Option<Order> {
    match (a.parse::<f64>(), b.parse::<f64>()) {
        (Ok(x), Ok(y)) => {
            if x < y {
                Some(Order::Less)
            } else if x > y {
                Some(Order::Greater)
            } else if x == y {
                Some(Order::Equal)
            } else {
                None
            }
        }
        _ => {
            if a < b {
                Some(Order::Less)
            } else if a > b {
                Some(Order::Greater)
            } else {
                Some(Order::Equal)
            }
        }
    }
}

fn tr_numeric(kind: Numeric, values: &Vec<String>) -> String {
    let nums: Vec<f64> = values.iter().filter_map(|v| v.parse::<f64>().ok()).collect();
    let sum: f64 = nums.iter().sum();
    match kind {
        Numeric::Sum => sum.to_string(),
        Numeric::Avg => {
            if nums.is_empty() {
                "0".to_string()
            } else {
                (sum / nums.len() as f64).to_string()
            }
        }
    }
}

fn execute_sql(db: &mut Database, sql: &str) -> Result<ExecutionResult, String> {
    match run_statement(db, sql, &tr_order, &tr_numeric)? {
        Step::Done(r) => Ok(r),
        Step::Log(req) => {
            let mut log = TR_LOG.lock().unwrap();
            for r in req.records.iter() {
                log.push((req.path.clone(), r.duplicate()));
            }
            drop(log);
            db.resume(req.after, Ok(()), &tr_order)
        }
    }
}

/// The records logged at `path` so far.
fn read_log(path: &str) -> Vec<WalRecord> {
    let log = TR_LOG.lock().unwrap();
    log.iter().filter(|(p, _)| p == path).map(|(_, r)| r.duplicate()).collect()
}

/// Empties the log at `path`.
fn clear_log(path: &str) {
    TR_LOG.lock().unwrap().retain(|(p, _)| p != path);
}

/// Recovers `db` from what is logged at its log path, then empties the log.
fn recover(db: &mut Database, path: &str) -> Result<(), String> {
    let records = read_log(path);
    db.recover(&records, &tr_order)?;
    clear_log(path);
    Ok(())
}

/// A table taken apart into plain values, as a snapshot stores it.
type TableParts = (Vec<String>, Vec<(u64, Vec<String>)>, u64, Vec<(String, Vec<(String, Vec<u64>)>)>, Vec<(String, String)>);

/// The database taken apart into plain values, as a snapshot stores it.
fn to_parts(db: &Database) -> (Vec<(String, TableParts)>, Vec<(String, u32)>, u32) {
    let tables = db
        .tables
        .iter()
        .map(|t| {
            let tb = &t.table;
            (
                t.name.clone(),
                (
                    tb.columns.clone(),
                    tb.rows.iter().map(|r| (r.id, r.values.clone())).collect(),
                    tb.next_id,
                    tb.indexes
                        .iter()
                        .map(|ci| (ci.column.clone(), ci.entries.iter().map(|e| (e.value.clone(), e.ids.clone())).collect()))
                        .collect(),
                    tb.index_name_to_col.iter().map(|n| (n.name.clone(), n.column.clone())).collect(),
                ),
            )
        })
        .collect();
    let counts = db.stats.counts.iter().map(|c| (c.key.clone(), c.count)).collect();
    (tables, counts, db.stats.threshold)
}

/// The database a snapshot's parts describe, checked by the library.
fn from_parts(parts: (Vec<(String, TableParts)>, Vec<(String, u32)>, u32)) -> Option<Database> {
    let (tables, counts, threshold) = parts;
    let tables = tables
        .into_iter()
        .map(|(name, (columns, rows, next_id, indexes, names))| NamedTable {
            name,
            table: Table {
                columns,
                rows: rows.into_iter().map(|(id, values)| Row { id, values }).collect(),
                next_id,
                indexes: indexes
                    .into_iter()
                    .map(|(column, entries)| ColumnIndex {
                        column,
                        entries: entries.into_iter().map(|(value, ids)| IndexEntry { value, ids }).collect(),
                    })
                    .collect(),
                index_name_to_col: names.into_iter().map(|(name, column)| IndexName { name, column }).collect(),
            },
        })
        .collect();
    let stats = Stats { counts: counts.into_iter().map(|(key, count)| LookupCount { key, count }).collect(), threshold };
    Database::from_parts(tables, stats)
}

/// The database as it stands once 100 users are stored, taken apart into a
/// snapshot's parts and read back through the library's check.
fn base_snapshot() -> Database {
    from_parts(to_parts(&built_base())).expect("the saved parts are consistent")
}

/// The database once 100 users are stored, built from the statements.
fn built_base() -> Database {
    let mut db = Database::new(5);
    execute_sql(&mut db, "CREATE TABLE users (id INT, name TEXT, age INT)").unwrap();
    let names = ["Alice", "Bob", "Charlie", "Diana", "Eve"];
    for i in 0..100 {
        let sql = format!(
            "INSERT INTO users VALUES ('{}', '{}', '{}')",
            i,
            names[i % names.len()],
            20 + (i % 30)
        );
        execute_sql(&mut db, &sql).unwrap();
    }
    db
}

/// Builds the base state with a log, then empties the log, as a clean
/// shutdown leaves it.
fn prepare_base(wal_path: &str) {
    let mut db = Database::new(5);
    db.set_wal_path(wal_path);
    execute_sql(&mut db, "CREATE TABLE users (id INT, name TEXT, age INT)").unwrap();
    let names = ["Alice", "Bob", "Charlie", "Diana", "Eve"];
    for i in 0..100 {
        let sql = format!(
            "INSERT INTO users VALUES ('{}', '{}', '{}')",
            i,
            names[i % names.len()],
            20 + (i % 30)
        );
        execute_sql(&mut db, &sql).unwrap();
    }
    clear_log(wal_path);
}

#[test]
fn test_auto_commit_recovery() {
    let wal = "test_auto_commit.wal";
    prepare_base(wal);

    let mut db1 = base_snapshot();
    db1.set_wal_path(wal);
    let count_before: usize = match execute_sql(&mut db1, "SELECT COUNT(*) FROM users").unwrap() {
        ExecutionResult::Select { rows, .. } => rows[0][0].parse().unwrap(),
        _ => panic!(),
    };
    assert_eq!(count_before, 100);

    execute_sql(&mut db1, "INSERT INTO users VALUES ('777', 'Auto', '77')").unwrap();

    let mut db2 = base_snapshot();
    db2.set_wal_path(wal);
    recover(&mut db2, wal).unwrap();

    let res = execute_sql(&mut db2, "SELECT COUNT(*) FROM users").unwrap();
    match res {
        ExecutionResult::Select { rows, .. } => {
            let count: usize = rows[0][0].parse().unwrap();
            assert_eq!(count, 101);
        }
        _ => panic!("Expected Select"),
    }
    let res = execute_sql(&mut db2, "SELECT * FROM users WHERE name = 'Auto'").unwrap();
    match res {
        ExecutionResult::Select { rows, .. } => assert_eq!(rows.len(), 1),
        _ => panic!("Expected Select"),
    }
}

#[test]
fn test_wal_recovery_after_commit() {
    let wal = "test_commit_rec.wal";
    prepare_base(wal);

    let mut db1 = base_snapshot();
    db1.set_wal_path(wal);

    execute_sql(&mut db1, "BEGIN").unwrap();
    execute_sql(&mut db1, "INSERT INTO users VALUES ('999', 'NewGuy', '99')").unwrap();
    execute_sql(&mut db1, "COMMIT").unwrap();

    let mut db2 = base_snapshot();
    db2.set_wal_path(wal);
    recover(&mut db2, wal).unwrap();

    let res = execute_sql(&mut db2, "SELECT COUNT(*) FROM users").unwrap();
    match res {
        ExecutionResult::Select { rows, .. } => {
            let count: usize = rows[0][0].parse().unwrap();
            assert_eq!(count, 101);
        }
        _ => panic!("Expected Select"),
    }
    let res = execute_sql(&mut db2, "SELECT * FROM users WHERE name = 'NewGuy'").unwrap();
    match res {
        ExecutionResult::Select { rows, .. } => assert_eq!(rows.len(), 1),
        _ => panic!("Expected Select"),
    }
}

#[test]
fn test_wal_recovery_after_rollback() {
    let wal = "test_rollback_rec.wal";
    prepare_base(wal);

    let mut db1 = base_snapshot();
    db1.set_wal_path(wal);

    execute_sql(&mut db1, "BEGIN").unwrap();
    execute_sql(&mut db1, "INSERT INTO users VALUES ('111', 'Ghost', '11')").unwrap();
    execute_sql(&mut db1, "ROLLBACK").unwrap();

    let mut db2 = base_snapshot();
    db2.set_wal_path(wal);
    recover(&mut db2, wal).unwrap();

    let res = execute_sql(&mut db2, "SELECT COUNT(*) FROM users").unwrap();
    match res {
        ExecutionResult::Select { rows, .. } => {
            let count: usize = rows[0][0].parse().unwrap();
            assert_eq!(count, 100);
        }
        _ => panic!("Expected Select"),
    }
}

#[test]
fn snapshot_parts_are_checked_before_recovery() {
    let mut db = built_base();
    execute_sql(&mut db, "CREATE INDEX idx_age ON users (age)").unwrap();
    let parts = to_parts(&db);
    let mut loaded = from_parts(parts.clone()).expect("consistent parts load");
    let res = execute_sql(&mut loaded, "SELECT id FROM users WHERE age = 21").unwrap();
    match res {
        ExecutionResult::Select { rows, used_index, .. } => {
            assert!(used_index);
            assert_eq!(rows.len(), 4);
        }
        _ => panic!("Expected Select"),
    }
    let mut swapped = parts.clone();
    swapped.0[0].1 .1.swap(0, 1);
    assert!(from_parts(swapped).is_none());
    let mut short_row = parts.clone();
    short_row.0[0].1 .1[3].1.pop();
    assert!(from_parts(short_row).is_none());
    let mut stale_index = parts.clone();
    stale_index.0[0].1 .1[0].1[2] = "99".to_string();
    assert!(from_parts(stale_index).is_none());
    let mut twice = parts.clone();
    let first = twice.0[0].clone();
    twice.0.push(first);
    assert!(from_parts(twice).is_none());
}
