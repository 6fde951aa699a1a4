use std::sync::Mutex;
use wgc_db::database::Database;
use wgc_db::executor::execute_sql as run_statement;
use wgc_db::outcome::{ExecutionResult, Step};
use wgc_db::value::{Numeric, Order};
use wgc_db::wal::WalRecord;

/// The log, kept in memory: (path, record) in the order written.
static UD_LOG: Mutex<Vec<(String, WalRecord)>> = Mutex::new(Vec::new());

fn ud_order(a: &str, b: &str) -> Option<Order> {
    match (a.parse::<f64>(), b.parse::<f64>()) {
        (Ok(x), Ok(y)) => {
            if x < y {
                Some(Order::Less)
            } else if x > y {
                Some(Order::Greater)
            } else if x == y {
                Some(Order::Equal)
            } else {
                None
            }
        }
        _ => {
            if a < b {
                Some(Order::Less)
            } else if a > b {
                Some(Order::Greater)
            } else {
                Some(Order::Equal)
            }
        }
    }
}

fn ud_numeric(kind: Numeric, values: &Vec<String>) -> String {
    let nums: Vec<f64> = values.iter().filter_map(|v| v.parse::<f64>().ok()).collect();
    let sum: f64 = nums.iter().sum();
    match kind {
        Numeric::Sum => sum.to_string(),
        Numeric::Avg => {
            if nums.is_empty() {
                "0".to_string()
            } else {
                (sum / nums.len() as f64).to_string()
            }
        }
    }
}

fn execute_sql(db: &mut Database, sql: &str) -> Result<ExecutionResult, String> {
    match run_statement(db, sql, &ud_order, &ud_numeric)? {
        Step::Done(r) => Ok(r),
        Step::Log(req) => {
            let mut log = UD_LOG.lock().unwrap();
            for r in req.records.iter() {
                log.push((req.path.clone(), r.duplicate()));
            }
            drop(log);
            db.resume(req.after, Ok(()), &ud_order)
        }
    }
}

fn init_db() -> Database {
    let mut db = Database::new(5);
    execute_sql(&mut db, "CREATE TABLE users (id INT, name TEXT, age INT)").unwrap();
    let names = ["Alice", "Bob", "Charlie", "Diana", "Eve"];
    for i in 0..1000 {
        let sql = format!(
            "INSERT INTO users VALUES ('{}', '{}', '{}')",
            i,
            names[i % names.len()],
            20 + (i % 30)
        );
        execute_sql(&mut db, &sql).unwrap();
    }
    db
}

#[test]
fn update_and_verify() {
    let mut db = init_db();
    let res = execute_sql(&mut db, "UPDATE users SET age = 99 WHERE name = 'Alice'").unwrap();
    assert!(matches!(res, ExecutionResult::Update { count: 200 }));

    let res = execute_sql(&mut db, "SELECT * FROM users WHERE name = 'Alice'").unwrap();
    match res {
        ExecutionResult::Select { rows, .. } => {
            assert_eq!(rows.len(), 200);
            assert!(rows.iter().all(|r| r[2] == "99"));
        }
        _ => panic!("预期 Select"),
    }
}

#[test]
fn delete_with_condition() {
    let mut db = init_db();
    execute_sql(&mut db, "UPDATE users SET age = 99 WHERE name = 'Alice'").unwrap();
    let res = execute_sql(&mut db, "DELETE FROM users WHERE age < 25").unwrap();
    assert!(matches!(res, ExecutionResult::Delete { count: 136 }));

    let res = execute_sql(&mut db, "SELECT COUNT(*) FROM users").unwrap();
    match res {
        ExecutionResult::Select { rows, .. } => assert_eq!(rows[0][0], "864"),
        _ => panic!("预期 Select"),
    }
}
