use std::sync::Mutex;
use wgc_db::database::Database;
use wgc_db::executor::execute_sql as run_statement;
use wgc_db::outcome::{ExecutionResult, Step};
use wgc_db::value::{Numeric, Order};
use wgc_db::wal::{replay_wal, WalRecord};
use wgc_db::table::{ColumnIndex, IndexEntry, Row, Table};
use wgc_db::framing::{frame_record, split_frames};
use wgc_db::database::NamedTable;
use wgc_db::stats::LookupCount;
use wgc_db::stats::Stats;
use wgc_db::aggregate::compute_agg;
use wgc_db::join::{cartesian_product, check_join_condition};
use wgc_db::text::{parse_usize, split_nth};
use wgc_db::condition::Condition;
use wgc_db::projection::{aggregate_named, read_upper_aggregate, AggregateFunction};
use wgc_db::records::{execute_create, execute_delete, execute_insert, execute_update};
use wgc_db::sql::{
    BinOp, CallArg, CallArgValue, CallArgs, CreateIndexStmt, CreateTableStmt, DeleteStmt, InsertRows, InsertStmt, Literal, SetClause, SqlExpr, Stmt, UpdateStmt,
};

/// The log, kept in memory: (path, record) in the order written.
static LB_LOG: Mutex<Vec<(String, WalRecord)>> = Mutex::new(Vec::new());

fn lb_order(a: &str, b: &str) -> Option<Order> {
    match (a.parse::<f64>(), b.parse::<f64>()) {
        (Ok(x), Ok(y)) => {
            if x < y {
                Some(Order::Less)
            } else if x > y {
                Some(Order::Greater)
            } else if x == y {
                Some(Order::Equal)
            } else {
                None
            }
        }
        _ => {
            if a < b {
                Some(Order::Less)
            } else if a > b {
                Some(Order::Greater)
            } else {
                Some(Order::Equal)
            }
        }
    }
}

fn lb_numeric(kind: Numeric, values: &Vec<String>) -> String {
    let nums: Vec<f64> = values.iter().filter_map(|v| v.parse::<f64>().ok()).collect();
    let sum: f64 = nums.iter().sum();
    match kind {
        Numeric::Sum => sum.to_string(),
        Numeric::Avg => {
            if nums.is_empty() {
                "0".to_string()
            } else {
                (sum / nums.len() as f64).to_string()
            }
        }
    }
}

fn execute_sql(db: &mut Database, sql: &str) -> Result<ExecutionResult, String> {
    match run_statement(db, sql, &lb_order, &lb_numeric)? {
        Step::Done(r) => Ok(r),
        Step::Log(req) => {
            let mut log = LB_LOG.lock().unwrap();
            for r in req.records.iter() {
                log.push((req.path.clone(), r.duplicate()));
            }
            drop(log);
            db.resume(req.after, Ok(()), &lb_order)
        }
    }
}

/// The records logged at `path`, then the log at `path` emptied.
fn take_log(path: &str) -> Vec<WalRecord> {
    let mut log = LB_LOG.lock().unwrap();
    let out: Vec<WalRecord> = log.iter().filter(|(p, _)| p == path).map(|(_, r)| r.duplicate()).collect();
    log.retain(|(p, _)| p != path);
    out
}

fn rows_of(res: ExecutionResult) -> Vec<Vec<String>> {
    match res {
        ExecutionResult::Select { rows, .. } => rows,
        _ => panic!("expected rows"),
    }
}

fn small_db() -> Database {
    let mut db = Database::new(5);
    execute_sql(&mut db, "CREATE TABLE users (id INT, name TEXT, age INT)").unwrap();
    for (i, n, a) in [("1", "Ann", "30"), ("2", "Bob", "25"), ("3", "Cid", "30"), ("4", "Dee", "41"), ("5", "Eve", "25")] {
        execute_sql(&mut db, &format!("INSERT INTO users VALUES ('{}', '{}', '{}')", i, n, a)).unwrap();
    }
    db
}

#[test]
fn commit_log_replays_to_the_same_tables() {
    let path = "lb_commit.wal";
    let mut live = small_db();
    live.set_wal_path(path);
    execute_sql(&mut live, "BEGIN").unwrap();
    execute_sql(&mut live, "INSERT INTO users VALUES ('6', 'Fay', '52')").unwrap();
    execute_sql(&mut live, "UPDATE users SET age = 31 WHERE name = 'Ann'").unwrap();
    execute_sql(&mut live, "DELETE FROM users WHERE age = 25").unwrap();
    execute_sql(&mut live, "COMMIT").unwrap();
    let log = take_log(path);
    assert_eq!(log.len(), 5);
    assert!(matches!(log[0], WalRecord::Begin));
    assert!(matches!(log[4], WalRecord::Commit));

    let mut restored = small_db();
    replay_wal(&log, &mut restored, &lb_order).unwrap();
    let a = rows_of(execute_sql(&mut live, "SELECT * FROM users").unwrap());
    let b = rows_of(execute_sql(&mut restored, "SELECT * FROM users").unwrap());
    assert_eq!(a, b);
    assert_eq!(a.len(), 4);
}

#[test]
fn auto_commit_write_replays() {
    let path = "lb_auto.wal";
    let mut live = small_db();
    live.set_wal_path(path);
    let res = execute_sql(&mut live, "UPDATE users SET name = 'Zed' WHERE age > 40").unwrap();
    assert!(matches!(res, ExecutionResult::Update { count: 1 }));
    let log = take_log(path);
    assert_eq!(log.len(), 3);
    let mut restored = small_db();
    replay_wal(&log, &mut restored, &lb_order).unwrap();
    let b = rows_of(execute_sql(&mut restored, "SELECT name FROM users WHERE id = 4").unwrap());
    assert_eq!(b, vec![vec!["Zed".to_string()]]);
}

#[test]
fn rollback_leaves_no_trace() {
    let path = "lb_rollback.wal";
    let mut live = small_db();
    live.set_wal_path(path);
    execute_sql(&mut live, "BEGIN").unwrap();
    execute_sql(&mut live, "DELETE FROM users WHERE age > 0").unwrap();
    assert!(matches!(execute_sql(&mut live, "ROLLBACK").unwrap(), ExecutionResult::RollbackTransaction));
    let log = take_log(path);
    assert_eq!(log.len(), 1);
    assert!(matches!(log[0], WalRecord::Rollback));
    assert_eq!(rows_of(execute_sql(&mut live, "SELECT * FROM users").unwrap()).len(), 5);
    let mut restored = small_db();
    replay_wal(&log, &mut restored, &lb_order).unwrap();
    assert_eq!(rows_of(execute_sql(&mut restored, "SELECT * FROM users").unwrap()).len(), 5);
}

#[test]
fn uncommitted_log_tail_is_ignored() {
    let mut db = small_db();
    let log = vec![
        WalRecord::Begin,
        WalRecord::Insert { table: "users".to_string(), id: 0, values: vec!["9".to_string(), "Gus".to_string(), "60".to_string()] },
    ];
    replay_wal(&log, &mut db, &lb_order).unwrap();
    assert_eq!(rows_of(execute_sql(&mut db, "SELECT * FROM users").unwrap()).len(), 5);
}

#[test]
fn replay_of_a_bad_write_stops_with_an_error() {
    let mut db = small_db();
    let log = vec![
        WalRecord::Insert { table: "nowhere".to_string(), id: 0, values: vec![] },
        WalRecord::Insert { table: "users".to_string(), id: 0, values: vec!["9".to_string(), "Gus".to_string(), "60".to_string()] },
    ];
    assert!(replay_wal(&log, &mut db, &lb_order).is_err());
    assert_eq!(rows_of(execute_sql(&mut db, "SELECT * FROM users").unwrap()).len(), 5);
}

#[test]
fn writes_in_a_transaction_wait_for_commit() {
    let mut db = small_db();
    execute_sql(&mut db, "BEGIN").unwrap();
    assert!(matches!(execute_sql(&mut db, "DELETE FROM users WHERE age = 30").unwrap(), ExecutionResult::Pending));
    assert_eq!(rows_of(execute_sql(&mut db, "SELECT * FROM users").unwrap()).len(), 5);
    // no log is set: the commit cannot be made durable
    assert!(execute_sql(&mut db, "COMMIT").is_err());
    assert_eq!(rows_of(execute_sql(&mut db, "SELECT * FROM users").unwrap()).len(), 5);
    assert!(execute_sql(&mut db, "COMMIT").is_err());
}

#[test]
fn drop_index_undoes_create_index() {
    let mut t = Table::new(vec!["k".to_string(), "v".to_string()]);
    t.insert_row(vec!["a".to_string(), "1".to_string()]).unwrap();
    t.build_index("by_v", "v").unwrap();
    assert_eq!(t.indexes.len(), 1);
    assert_eq!(t.index_name_to_col.len(), 1);
    t.drop_index("by_v");
    assert_eq!(t.indexes.len(), 0);
    assert_eq!(t.index_name_to_col.len(), 0);
    assert!(t.build_index("bad", "nope").is_err());
}

#[test]
fn next_id_follows_explicit_ids() {
    let mut t = Table::new(vec!["k".to_string()]);
    t.insert_row_with_id(10, vec!["a".to_string()]).unwrap();
    assert_eq!(t.insert_row(vec!["b".to_string()]).unwrap(), 11);
    t.insert_row_with_id(3, vec!["c".to_string()]).unwrap();
    let ids: Vec<u64> = t.rows.iter().map(|r| r.id).collect();
    assert_eq!(ids, vec![3, 10, 11]);
    assert_eq!(t.insert_row(vec!["d".to_string()]).unwrap(), 12);
}

#[test]
fn insert_with_existing_id_changes_nothing() {
    let mut t = Table::new(vec!["k".to_string()]);
    t.insert_row_with_id(5, vec!["a".to_string()]).unwrap();
    t.insert_row_with_id(5, vec!["other".to_string()]).unwrap();
    assert_eq!(t.rows.len(), 1);
    assert_eq!(t.rows[0].values, vec!["a".to_string()]);
    assert!(t.insert_row_with_id(6, vec![]).is_err());
    assert!(t.insert_row(vec!["x".to_string(), "y".to_string()]).is_err());
}

#[test]
fn deleted_rows_are_gone() {
    let mut db = small_db();
    let res = execute_sql(&mut db, "DELETE FROM users WHERE age <= 30").unwrap();
    assert!(matches!(res, ExecutionResult::Delete { count: 4 }));
    let rest = rows_of(execute_sql(&mut db, "SELECT * FROM users WHERE age <= 30").unwrap());
    assert!(rest.is_empty());
    assert_eq!(rows_of(execute_sql(&mut db, "SELECT name FROM users").unwrap()), vec![vec!["Dee".to_string()]]);
}

#[test]
fn index_lookup_agrees_with_scan() {
    let mut db = small_db();
    let scan = rows_of(execute_sql(&mut db, "SELECT id FROM users WHERE age = 30").unwrap());
    execute_sql(&mut db, "CREATE INDEX by_age ON users (age)").unwrap();
    let res = execute_sql(&mut db, "SELECT id FROM users WHERE age = 30").unwrap();
    match res {
        ExecutionResult::Select { rows, scanned, used_index } => {
            assert!(used_index);
            assert_eq!(scanned, 2);
            assert_eq!(rows, scan);
        }
        _ => panic!("expected rows"),
    }
    // the index follows updates: the moved row is listed under its new value
    execute_sql(&mut db, "UPDATE users SET age = 30 WHERE name = 'Bob'").unwrap();
    let ids = rows_of(execute_sql(&mut db, "SELECT id FROM users WHERE age = 30").unwrap());
    assert_eq!(ids, vec![vec!["1".to_string()], vec!["3".to_string()], vec!["2".to_string()]]);
}

#[test]
fn repeated_lookups_build_an_index() {
    let mut db = Database::new(2);
    execute_sql(&mut db, "CREATE TABLE t (a INT)").unwrap();
    execute_sql(&mut db, "INSERT INTO t VALUES ('1')").unwrap();
    let first = execute_sql(&mut db, "SELECT * FROM t WHERE a = 1").unwrap();
    assert!(matches!(first, ExecutionResult::Select { used_index: false, .. }));
    execute_sql(&mut db, "SELECT * FROM t WHERE a = 1").unwrap();
    let third = execute_sql(&mut db, "SELECT * FROM t WHERE a = 1").unwrap();
    assert!(matches!(third, ExecutionResult::Select { used_index: true, scanned: 1, .. }));
}

#[test]
fn stats_count_lookups_without_index() {
    let mut s = Stats::new(3);
    assert!(s.record_and_check("t", "c", false).is_none());
    assert!(s.record_and_check("t", "c", true).is_none());
    assert!(s.record_and_check("t", "c", false).is_none());
    assert_eq!(s.record_and_check("t", "c", false), Some(("t".to_string(), "c".to_string())));
    assert_eq!(s.counts.len(), 1);
    assert_eq!(s.counts[0].key, "t.c");
    assert_eq!(s.counts[0].count, 3);
}

#[test]
fn aggregates_compute_exact_values() {
    let mut db = small_db();
    let rows = rows_of(execute_sql(&mut db, "SELECT age, COUNT(*), SUM(id), AVG(id) FROM users GROUP BY age").unwrap());
    assert_eq!(
        rows,
        vec![
            vec!["30".to_string(), "2".to_string(), "4".to_string(), "2".to_string()],
            vec!["25".to_string(), "2".to_string(), "7".to_string(), "3.5".to_string()],
            vec!["41".to_string(), "1".to_string(), "4".to_string(), "4".to_string()],
        ]
    );
    let rows = rows_of(execute_sql(&mut db, "SELECT AVG(name) FROM users").unwrap());
    assert_eq!(rows, vec![vec!["0".to_string()]]);
    let rows = rows_of(execute_sql(&mut db, "SELECT age FROM users GROUP BY age HAVING COUNT(*) = 2 ORDER BY age").unwrap());
    assert_eq!(rows, vec![vec!["25".to_string()], vec!["30".to_string()]]);
}

#[test]
fn lower_case_function_names_are_read() {
    let mut db = small_db();
    let rows = rows_of(execute_sql(&mut db, "select count(*) from users").unwrap());
    assert_eq!(rows, vec![vec!["5".to_string()]]);
    assert!(execute_sql(&mut db, "SELECT MAX(age) FROM users").is_err());
}

#[test]
fn join_matches_rows_across_tables() {
    let mut db = small_db();
    execute_sql(&mut db, "CREATE TABLE pets (owner INT, pet TEXT)").unwrap();
    execute_sql(&mut db, "INSERT INTO pets VALUES ('2', 'cat')").unwrap();
    execute_sql(&mut db, "INSERT INTO pets VALUES ('4', 'dog')").unwrap();
    // ORDER BY names no listed column here (the list holds `u.name` and
    // `p.pet`), so the rows keep the order of the combinations
    let res = execute_sql(&mut db, "SELECT u.name, p.pet FROM users u, pets p WHERE u.id = p.owner ORDER BY pet DESC").unwrap();
    match res {
        ExecutionResult::Select { rows, scanned, used_index } => {
            assert_eq!(rows, vec![vec!["Bob".to_string(), "cat".to_string()], vec!["Dee".to_string(), "dog".to_string()]]);
            assert_eq!(scanned, 7);
            assert!(!used_index);
        }
        _ => panic!("expected rows"),
    }
    // a plain name that two tables share is ambiguous
    execute_sql(&mut db, "CREATE TABLE more (id INT)").unwrap();
    execute_sql(&mut db, "INSERT INTO more VALUES ('1')").unwrap();
    assert!(execute_sql(&mut db, "SELECT id FROM users, more").is_err());
}

#[test]
fn cartesian_product_varies_the_last_list_fastest() {
    let r = cartesian_product(&vec![vec![1, 2], vec![3, 4, 5]]);
    assert_eq!(r, vec![vec![1, 3], vec![1, 4], vec![1, 5], vec![2, 3], vec![2, 4], vec![2, 5]]);
    let empty: Vec<Vec<u8>> = Vec::new();
    assert_eq!(cartesian_product(&empty), vec![Vec::<u8>::new()]);
}

#[test]
fn limit_is_read_as_usize() {
    assert_eq!(parse_usize("42"), Some(42));
    assert_eq!(parse_usize("+7"), Some(7));
    assert_eq!(parse_usize(""), None);
    assert_eq!(parse_usize("+"), None);
    assert_eq!(parse_usize("1.5"), None);
    assert_eq!(parse_usize("18446744073709551616"), None);
    let mut db = small_db();
    assert_eq!(rows_of(execute_sql(&mut db, "SELECT * FROM users LIMIT 2").unwrap()).len(), 2);
    assert!(execute_sql(&mut db, "SELECT * FROM users LIMIT 1.5").is_err());
}

#[test]
fn split_nth_reads_pieces() {
    assert_eq!(split_nth("a\0b\0c", '\0', 1), "b");
    assert_eq!(split_nth("a\0b", '\0', 5), "");
    assert_eq!(split_nth("", '\0', 0), "");
    assert_eq!(split_nth("x", '\0', 0), "x");
}

#[test]
fn order_by_is_stable_and_numeric() {
    let mut db = small_db();
    let rows = rows_of(execute_sql(&mut db, "SELECT name, age FROM users ORDER BY age").unwrap());
    let names: Vec<&str> = rows.iter().map(|r| r[0].as_str()).collect();
    assert_eq!(names, vec!["Bob", "Eve", "Ann", "Cid", "Dee"]);
    // a key that is not in the list leaves the order as it was
    let rows = rows_of(execute_sql(&mut db, "SELECT name FROM users ORDER BY age DESC").unwrap());
    let names: Vec<&str> = rows.iter().map(|r| r[0].as_str()).collect();
    assert_eq!(names, vec!["Ann", "Bob", "Cid", "Dee", "Eve"]);
    let rows = rows_of(execute_sql(&mut db, "SELECT * FROM users ORDER BY age DESC LIMIT 2").unwrap());
    assert_eq!(rows[0][1], "Dee");
    assert_eq!(rows[1][1], "Ann");
    assert!(execute_sql(&mut db, "SELECT * FROM users ORDER BY age, name").is_err());
    assert!(execute_sql(&mut db, "SELECT * FROM users ORDER BY age + 1").is_err());
}

#[test]
fn errors_are_reported() {
    let mut db = small_db();
    assert!(execute_sql(&mut db, "SELEC * FROM users").unwrap_err().starts_with("Parse error: "));
    assert!(execute_sql(&mut db, "SELECT * FROM users; SELECT * FROM users").is_err());
    assert!(execute_sql(&mut db, "SELECT * FROM nowhere").is_err());
    assert!(execute_sql(&mut db, "INSERT INTO users VALUES ('1')").is_err());
    assert!(execute_sql(&mut db, "INSERT INTO nowhere VALUES ('1')").is_err());
    assert!(execute_sql(&mut db, "UPDATE users SET nope = 1").is_err());
    assert!(execute_sql(&mut db, "DROP TABLE users").is_err());
    assert!(execute_sql(&mut db, "COMMIT").is_err());
    assert!(execute_sql(&mut db, "ROLLBACK").is_err());
    assert!(execute_sql(&mut db, "SELECT nope FROM users").is_err());
    assert!(execute_sql(&mut db, "SELECT name, COUNT(*) FROM users GROUP BY age").is_err());
    assert!(execute_sql(&mut db, "SELECT COUNT(*) FROM users GROUP BY age + 1").is_err());
    assert!(execute_sql(&mut db, "SELECT COUNT(*) FROM users HAVING age").is_err());
    assert!(execute_sql(&mut db, "SELECT * FROM users WHERE age").is_err());
    assert!(execute_sql(&mut db, "SELECT * FROM users WHERE age LIKE '3%'").is_err());
    assert_eq!(rows_of(execute_sql(&mut db, "SELECT * FROM users").unwrap()).len(), 5);
}

#[test]
fn conditions_compare_numbers_and_texts() {
    let mut db = small_db();
    assert_eq!(rows_of(execute_sql(&mut db, "SELECT id FROM users WHERE age = 30.0").unwrap()).len(), 2);
    assert_eq!(rows_of(execute_sql(&mut db, "SELECT id FROM users WHERE name > 'Cid'").unwrap()).len(), 2);
    assert_eq!(rows_of(execute_sql(&mut db, "SELECT id FROM users WHERE name != 'Ann' AND age < 30").unwrap()).len(), 2);
    assert_eq!(rows_of(execute_sql(&mut db, "SELECT id FROM users WHERE users.age >= 41").unwrap()).len(), 1);
    let c = Condition { col: "age".to_string(), op: "=".to_string(), val: "25".to_string(), rhs_is_column: true };
    assert!(wgc_db::condition::check_condition(
        &vec!["1".to_string(), "x".to_string(), "25".to_string()],
        &vec!["id".to_string(), "name".to_string(), "age".to_string()],
        &c,
        &lb_order,
    )
    .is_err());
}

#[test]
fn direct_writes_apply_at_once_and_give_their_record() {
    let mut db = Database::new(100);
    db.add_table("t", vec!["id".to_string(), "v".to_string()]);
    let ins = Stmt::InsertInto(InsertStmt {
        table: "t".to_string(),
        source: Some(InsertRows::Values(vec![
            vec![SqlExpr::Lit(Literal::Number("1".to_string())), SqlExpr::Lit(Literal::SingleQuoted("a".to_string()))],
            vec![SqlExpr::Lit(Literal::Number("2".to_string())), SqlExpr::Lit(Literal::SingleQuoted("b".to_string()))],
        ])),
    });
    let (res, rec) = execute_insert(&mut db, &ins, &lb_order).unwrap();
    assert!(matches!(res, ExecutionResult::Insert { count: 1 }));
    assert!(matches!(rec, Some(WalRecord::Insert { .. })));
    assert_eq!(rows_of(execute_sql(&mut db, "SELECT v FROM t").unwrap()), vec![vec!["a".to_string()]]);
    let (_, _) = execute_insert(&mut db, &Stmt::InsertInto(InsertStmt {
        table: "t".to_string(),
        source: Some(InsertRows::Values(vec![vec![SqlExpr::Lit(Literal::Number("2".to_string())), SqlExpr::Lit(Literal::SingleQuoted("b".to_string()))]])),
    }), &lb_order).unwrap();

    let upd = Stmt::UpdateSet(UpdateStmt {
        table: "t".to_string(),
        assignments: vec![SetClause { target: Some("v".to_string()), value: SqlExpr::Lit(Literal::SingleQuoted("z".to_string())) }],
        selection: Some(SqlExpr::BinaryOp(
            Box::new(SqlExpr::Identifier("id".to_string())),
            BinOp::Eq,
            Box::new(SqlExpr::Lit(Literal::Number("2".to_string()))),
        )),
    });
    let (res, _) = execute_update(&mut db, &upd, &lb_order).unwrap();
    assert!(matches!(res, ExecutionResult::Update { count: 1 }));
    assert_eq!(rows_of(execute_sql(&mut db, "SELECT v FROM t WHERE id = 2").unwrap()), vec![vec!["z".to_string()]]);

    let del = Stmt::DeleteFrom(DeleteStmt { tables: vec![], from: vec![], selection: None });
    assert!(execute_delete(&mut db, &del, &lb_order).is_err());
    assert!(execute_delete(&mut db, &ins, &lb_order).is_err());
    assert!(execute_insert(&mut db, &upd, &lb_order).is_err());
    assert_eq!(rows_of(execute_sql(&mut db, "SELECT * FROM t").unwrap()).len(), 2);
}

#[test]
fn direct_create_makes_tables_and_indexes() {
    let mut db = Database::new(100);
    let t = Stmt::NewTable(CreateTableStmt { name: "p".to_string(), columns: vec!["id".to_string(), "k".to_string()] });
    assert!(matches!(execute_create(&mut db, &t), Ok(ExecutionResult::CreateTable)));
    execute_sql(&mut db, "INSERT INTO p VALUES ('1', 'x')").unwrap();
    execute_sql(&mut db, "INSERT INTO p VALUES ('2', 'y')").unwrap();
    let idx = |table: &str, cols: Vec<String>| {
        Stmt::NewIndex(CreateIndexStmt { name: None, table_name: table.to_string(), columns: cols })
    };
    assert!(matches!(execute_create(&mut db, &idx("p", vec!["k".to_string()])), Ok(ExecutionResult::CreateIndex)));
    match execute_sql(&mut db, "SELECT id FROM p WHERE k = 'y'").unwrap() {
        ExecutionResult::Select { rows, used_index, .. } => {
            assert!(used_index);
            assert_eq!(rows, vec![vec!["2".to_string()]]);
        }
        other => panic!("unexpected {:?}", other),
    }
    assert!(execute_create(&mut db, &idx("p", vec![])).is_err());
    assert!(execute_create(&mut db, &idx("nowhere", vec!["k".to_string()])).is_err());
    assert!(execute_create(&mut db, &idx("p", vec!["nope".to_string()])).is_err());
    assert!(execute_create(&mut db, &Stmt::Begin).is_err());
}

#[test]
fn update_touches_only_the_set_column_of_passing_rows() {
    let mut db = small_db();
    let before = rows_of(execute_sql(&mut db, "SELECT * FROM users").unwrap());
    assert!(matches!(execute_sql(&mut db, "UPDATE users SET name = 'Zed' WHERE age = 30").unwrap(), ExecutionResult::Update { count: 2 }));
    let after = rows_of(execute_sql(&mut db, "SELECT * FROM users").unwrap());
    assert_eq!(after.len(), before.len());
    for (b, a) in before.iter().zip(after.iter()) {
        assert_eq!(a[0], b[0]);
        assert_eq!(a[2], b[2]);
        if b[2] == "30" {
            assert_eq!(a[1], "Zed");
        } else {
            assert_eq!(a[1], b[1]);
        }
    }
}

#[test]
fn upper_case_names_pick_the_aggregate() {
    assert!(matches!(aggregate_named("COUNT", "*".to_string()), Some(AggregateFunction::Count(a)) if a == "*"));
    assert!(matches!(aggregate_named("SUM", "age".to_string()), Some(AggregateFunction::Sum(a)) if a == "age"));
    assert!(matches!(aggregate_named("AVG", "age".to_string()), Some(AggregateFunction::Avg(a)) if a == "age"));
    assert!(aggregate_named("count", "age".to_string()).is_none());
    assert!(aggregate_named("MAX", "age".to_string()).is_none());
    let one = CallArgs::List(vec![CallArg::Unnamed(CallArgValue::Arg(SqlExpr::Identifier("age".to_string())))]);
    assert!(matches!(read_upper_aggregate(&"COUNT".to_string(), &CallArgs::List(vec![])), Ok(AggregateFunction::Count(a)) if a == "*"));
    assert!(matches!(read_upper_aggregate(&"COUNT".to_string(), &CallArgs::Other), Ok(AggregateFunction::Count(a)) if a == "*"));
    assert!(matches!(read_upper_aggregate(&"SUM".to_string(), &one), Ok(AggregateFunction::Sum(a)) if a == "age"));
    assert!(matches!(read_upper_aggregate(&"AVG".to_string(), &one), Ok(AggregateFunction::Avg(a)) if a == "age"));
    assert!(read_upper_aggregate(&"SUM".to_string(), &CallArgs::Other).is_err());
    assert!(read_upper_aggregate(&"sum".to_string(), &one).is_err());
    assert!(read_upper_aggregate(&"MIN".to_string(), &one).is_err());
}

#[test]
fn rollback_after_several_writes_restores_the_tables() {
    let path = "lb_rollback_many.wal";
    let mut live = small_db();
    live.set_wal_path(path);
    let before = rows_of(execute_sql(&mut live, "SELECT * FROM users").unwrap());
    execute_sql(&mut live, "BEGIN").unwrap();
    assert!(matches!(execute_sql(&mut live, "INSERT INTO users VALUES ('6', 'Fay', '52')").unwrap(), ExecutionResult::Pending));
    assert!(matches!(execute_sql(&mut live, "UPDATE users SET age = 1").unwrap(), ExecutionResult::Pending));
    assert!(matches!(execute_sql(&mut live, "DELETE FROM users WHERE age = 30").unwrap(), ExecutionResult::Pending));
    assert!(execute_sql(&mut live, "DROP TABLE users").is_err());
    assert!(matches!(execute_sql(&mut live, "ROLLBACK").unwrap(), ExecutionResult::RollbackTransaction));
    assert_eq!(rows_of(execute_sql(&mut live, "SELECT * FROM users").unwrap()), before);
    let log = take_log(path);
    assert_eq!(log.len(), 1);
    assert!(matches!(log[0], WalRecord::Rollback));
    execute_sql(&mut live, "BEGIN").unwrap();
    assert!(matches!(execute_sql(&mut live, "ROLLBACK").unwrap(), ExecutionResult::RollbackTransaction));
    assert!(take_log(path).is_empty());
    assert!(execute_sql(&mut live, "ROLLBACK").is_err());
}

#[test]
fn log_frames_read_back_and_a_cut_short_record_is_dropped() {
    let a = frame_record(&vec![1u8, 2, 3]);
    assert_eq!(a, vec![0u8, 0, 0, 3, 1, 2, 3]);
    let big: Vec<u8> = (0..300).map(|i| (i % 256) as u8).collect();
    let b = frame_record(&big);
    assert_eq!(&b[..4], &[0u8, 0, 1, 44]);
    let mut data = a.clone();
    data.extend_from_slice(&b);
    data.extend_from_slice(&frame_record(&vec![]));
    assert_eq!(split_frames(&data), vec![vec![1u8, 2, 3], big.clone(), vec![]]);
    let mut cut = data.clone();
    cut.extend_from_slice(&[0u8, 0, 0, 9, 7, 7]);
    assert_eq!(split_frames(&cut), vec![vec![1u8, 2, 3], big.clone(), vec![]]);
    cut.truncate(data.len() + 2);
    assert_eq!(split_frames(&cut).len(), 3);
    assert!(split_frames(&vec![]).is_empty());
}

fn part_table(ids: &[u64], index_ids: Vec<u64>) -> Table {
    Table {
        columns: vec!["id".to_string(), "k".to_string()],
        rows: ids.iter().map(|&i| Row { id: i, values: vec![i.to_string(), "x".to_string()] }).collect(),
        next_id: 10,
        indexes: vec![ColumnIndex { column: "k".to_string(), entries: vec![IndexEntry { value: "x".to_string(), ids: index_ids }] }],
        index_name_to_col: vec![],
    }
}

#[test]
fn stored_parts_are_checked_before_use() {
    let stats = || Stats { counts: vec![LookupCount { key: "t.k".to_string(), count: 1 }], threshold: 3 };
    let good = Database::from_parts(vec![NamedTable { name: "t".to_string(), table: part_table(&[1, 2], vec![2, 1]) }], stats());
    let mut db = good.expect("consistent parts are accepted");
    assert_eq!(rows_of(execute_sql(&mut db, "SELECT id FROM t WHERE k = 'x'").unwrap()), vec![vec!["2".to_string()], vec!["1".to_string()]]);
    let twice = vec![
        NamedTable { name: "t".to_string(), table: part_table(&[1], vec![1]) },
        NamedTable { name: "t".to_string(), table: part_table(&[1], vec![1]) },
    ];
    assert!(Database::from_parts(twice, stats()).is_none());
    assert!(Database::from_parts(vec![NamedTable { name: "t".to_string(), table: part_table(&[2, 1], vec![1, 2]) }], stats()).is_none());
    assert!(Database::from_parts(vec![NamedTable { name: "t".to_string(), table: part_table(&[1, 2], vec![1]) }], stats()).is_none());
    assert!(Database::from_parts(vec![NamedTable { name: "t".to_string(), table: part_table(&[1, 2], vec![1, 2, 2]) }], stats()).is_none());
    assert!(Database::from_parts(vec![NamedTable { name: "t".to_string(), table: part_table(&[1, 12], vec![1, 12]) }], stats()).is_none());
    let dup_counts = Stats {
        counts: vec![LookupCount { key: "a".to_string(), count: 1 }, LookupCount { key: "a".to_string(), count: 2 }],
        threshold: 3,
    };
    assert!(Database::from_parts(vec![], dup_counts).is_none());
}

#[test]
fn statement_errors_carry_their_texts() {
    let mut db = small_db();
    assert!(execute_sql(&mut db, "SELEC * FROM users").unwrap_err().starts_with("Parse error: "));
    assert_eq!(execute_sql(&mut db, "BEGIN; COMMIT").unwrap_err(), "Only one statement per call is supported");
    assert_eq!(execute_sql(&mut db, "COMMIT").unwrap_err(), "没有活跃事务");
    assert_eq!(execute_sql(&mut db, "ROLLBACK").unwrap_err(), "没有活跃事务");
    assert_eq!(execute_sql(&mut db, "DROP TABLE users").unwrap_err(), "Unsupported statement");
    assert_eq!(execute_sql(&mut db, "INSERT INTO nowhere VALUES ('1')").unwrap_err(), "表不存在");
    assert_eq!(execute_sql(&mut db, "INSERT INTO users VALUES ('1')").unwrap_err(), "Column count mismatch");
    assert_eq!(execute_sql(&mut db, "UPDATE users SET nope = 1").unwrap_err(), "SET column not found");
    assert_eq!(execute_sql(&mut db, "UPDATE users SET age = 1 WHERE age").unwrap_err(), "Unsupported WHERE clause format");
    assert_eq!(execute_sql(&mut db, "DELETE FROM users WHERE 1 = age").unwrap_err(), "Not a column name");
    assert_eq!(execute_sql(&mut db, "CREATE INDEX ON users (age)").unwrap_err(), "CREATE INDEX 必须有索引名");
    assert_eq!(execute_sql(&mut db, "CREATE INDEX i ON users (nope)").unwrap_err(), "Column not found");
    assert_eq!(execute_sql(&mut db, "DROP INDEX i").unwrap_err(), "DROP INDEX 需要 ON table_name");
    execute_sql(&mut db, "BEGIN").unwrap();
    assert_eq!(execute_sql(&mut db, "BEGIN").unwrap_err(), "已有活跃事务");
    execute_sql(&mut db, "INSERT INTO users VALUES ('6', 'Fay', '52')").unwrap();
    assert_eq!(execute_sql(&mut db, "COMMIT").unwrap_err(), "未设置 WAL 路径，无法提交事务");
}

#[test]
fn query_errors_carry_their_texts() {
    let mut db = small_db();
    execute_sql(&mut db, "CREATE TABLE pets (owner TEXT, kind TEXT)").unwrap();
    execute_sql(&mut db, "INSERT INTO pets VALUES ('1', 'cat')").unwrap();
    let err = |db: &mut Database, sql: &str| execute_sql(db, sql).unwrap_err();
    assert_eq!(err(&mut db, "SELECT * FROM users UNION SELECT * FROM users"), "Only simple SELECT");
    assert_eq!(err(&mut db, "SELECT age + 1 FROM users"), "SELECT 中只能出现列名、* 或聚合函数");
    assert_eq!(err(&mut db, "SELECT MAX(age) FROM users"), "不支持的函数: MAX");
    assert_eq!(err(&mut db, "SELECT sum(age, id) FROM users"), "聚合函数只接受一个参数");
    assert_eq!(err(&mut db, "SELECT * FROM users JOIN pets ON users.id = pets.owner"), "暂不支持显式 JOIN，请使用逗号分隔表名");
    assert_eq!(err(&mut db, "SELECT * FROM users WHERE 1 = age"), "Not a column name");
    assert_eq!(err(&mut db, "SELECT COUNT(*) FROM nowhere"), "Table not found");
    assert_eq!(err(&mut db, "SELECT * FROM nowhere"), "Table not found");
    assert_eq!(err(&mut db, "SELECT nope FROM users"), "Column nope not found");
    assert_eq!(err(&mut db, "SELECT * FROM users ORDER BY age, id"), "仅支持单列排序");
    assert_eq!(err(&mut db, "SELECT * FROM users ORDER BY age + 1"), "ORDER BY 仅支持列名");
    assert_eq!(err(&mut db, "SELECT * FROM users LIMIT 'x'"), "LIMIT 必须是数字");
    assert_eq!(err(&mut db, "SELECT * FROM users LIMIT 99999999999999999999999"), "无效 LIMIT");
    assert_eq!(err(&mut db, "SELECT name, COUNT(*) FROM users GROUP BY age"), "非聚合列 'name' 必须出现在 GROUP BY 中");
    assert_eq!(err(&mut db, "SELECT COUNT(*) FROM users GROUP BY nope"), "GROUP BY 列不存在");
    assert_eq!(err(&mut db, "SELECT COUNT(*) FROM users GROUP BY age + 1"), "GROUP BY 仅支持列名");
    assert_eq!(err(&mut db, "SELECT SUM(nope) FROM users"), "列不存在");
    assert_eq!(err(&mut db, "SELECT COUNT(*) FROM users HAVING age"), "HAVING 仅支持简单比较");
    assert_eq!(err(&mut db, "SELECT age, COUNT(*) FROM users GROUP BY age HAVING MAX(age) > 1"), "不支持的聚合函数");
    assert_eq!(err(&mut db, "SELECT * FROM users, nowhere"), "表不存在");
    assert_eq!(err(&mut db, "SELECT * FROM users, pets WHERE id = nope"), "列 'nope' 不存在");
    assert_eq!(err(&mut db, "SELECT * FROM users u, pets p WHERE q.id = p.owner"), "无法解析列 'q.id'");
}

#[test]
fn direct_writes_look_for_the_table() {
    let mut db = Database::new(100);
    db.add_table("t", vec!["id".to_string(), "v".to_string()]);
    let ins = Stmt::InsertInto(InsertStmt { table: "nowhere".to_string(), source: Some(InsertRows::Values(vec![])) });
    assert_eq!(execute_insert(&mut db, &ins, &lb_order).unwrap_err(), "Table not found");
    let ins = Stmt::InsertInto(InsertStmt { table: "nowhere".to_string(), source: None });
    assert_eq!(execute_insert(&mut db, &ins, &lb_order).unwrap_err(), "Table not found");
    let ins = Stmt::InsertInto(InsertStmt { table: "t".to_string(), source: None });
    assert_eq!(execute_insert(&mut db, &ins, &lb_order).unwrap_err(), "Missing source");
    let upd = |table: &str, value: SqlExpr| {
        Stmt::UpdateSet(UpdateStmt {
            table: table.to_string(),
            assignments: vec![SetClause { target: Some("v".to_string()), value }],
            selection: None,
        })
    };
    let lit = || SqlExpr::Lit(Literal::Number("1".to_string()));
    assert_eq!(execute_update(&mut db, &upd("nowhere", lit()), &lb_order).unwrap_err(), "Table not found");
    assert_eq!(execute_update(&mut db, &upd("nowhere", SqlExpr::Identifier("x".to_string())), &lb_order).unwrap_err(), "SET value must be literal");
    let del = Stmt::DeleteFrom(DeleteStmt { tables: vec!["nowhere".to_string()], from: vec![], selection: None });
    assert_eq!(execute_delete(&mut db, &del, &lb_order).unwrap_err(), "Table not found");
}

#[test]
fn row_readers_accept_rows_longer_than_needed() {
    let cols = vec!["id".to_string(), "age".to_string()];
    let long = vec!["1".to_string(), "30".to_string(), "extra".to_string()];
    let c = Condition { col: "age".to_string(), op: "=".to_string(), val: "30".to_string(), rhs_is_column: false };
    assert_eq!(wgc_db::condition::check_condition(&long, &cols, &c, &lb_order), Ok(true));
    let short = vec!["1".to_string(), "30".to_string()];
    let rows = vec![&long, &short];
    assert_eq!(compute_agg(&AggregateFunction::Sum("age".to_string()), &rows, &cols, &lb_numeric), Ok("60".to_string()));
    assert_eq!(compute_agg(&AggregateFunction::Count("id".to_string()), &rows, &cols, &lb_numeric), Ok("2".to_string()));
    let info = vec![(None, cols.clone()), (Some("p".to_string()), vec!["owner".to_string()])];
    let pet = vec!["1".to_string(), "more".to_string()];
    let combo = vec![&long, &pet, &short];
    assert_eq!(check_join_condition(&combo, &info, &vec![], &lb_order), Ok(true));
    let on = Condition { col: "id".to_string(), op: "=".to_string(), val: "p.owner".to_string(), rhs_is_column: true };
    assert_eq!(check_join_condition(&combo, &info, &vec![on], &lb_order), Ok(true));
}
