use std::sync::Mutex;
use wgc_db::database::Database;
use wgc_db::executor::execute_sql as run_statement;
use wgc_db::outcome::{ExecutionResult, Step};
use wgc_db::value::{Numeric, Order};
use wgc_db::wal::WalRecord;

/// The log, kept in memory: (path, record) in the order written.
static DI_LOG: Mutex<Vec<(String, WalRecord)>> = Mutex::new(Vec::new());

fn di_order(a: &str, b: &str) -> Option<Order> {
    match (a.parse::<f64>(), b.parse::<f64>()) {
        (Ok(x), Ok(y)) => {
            if x < y {
                Some(Order::Less)
            } else if x > y {
                Some(Order::Greater)
            } else if x == y {
                Some(Order::Equal)
            } else {
                None
            }
        }
        _ => {
            if a < b {
                Some(Order::Less)
            } else if a > b {
                Some(Order::Greater)
            } else {
                Some(Order::Equal)
            }
        }
    }
}

fn di_numeric(kind: Numeric, values: &Vec<String>) -> String {
    let nums: Vec<f64> = values.iter().filter_map(|v| v.parse::<f64>().ok()).collect();
    let sum: f64 = nums.iter().sum();
    match kind {
        Numeric::Sum => sum.to_string(),
        Numeric::Avg => {
            if nums.is_empty() {
                "0".to_string()
            } else {
                (sum / nums.len() as f64).to_string()
            }
        }
    }
}

fn execute_sql(db: &mut Database, sql: &str) -> Result<ExecutionResult, String> {
    match run_statement(db, sql, &di_order, &di_numeric)? {
        Step::Done(r) => Ok(r),
        Step::Log(req) => {
            let mut log = DI_LOG.lock().unwrap();
            for r in req.records.iter() {
                log.push((req.path.clone(), r.duplicate()));
            }
            drop(log);
            db.resume(req.after, Ok(()), &di_order)
        }
    }
}

fn init_db() -> Database {
    let mut db = Database::new(5);
    execute_sql(&mut db, "CREATE TABLE users (id INT, name TEXT, age INT)").unwrap();
    let names = ["Alice", "Bob", "Charlie", "Diana", "Eve"];
    for i in 0..1000 {
        let sql = format!(
            "INSERT INTO users VALUES ('{}', '{}', '{}')",
            i,
            names[i % names.len()],
            20 + (i % 30)
        );
        execute_sql(&mut db, &sql).unwrap();
    }
    db
}

#[test]
fn create_index_and_query() {
    let mut db = init_db();
    execute_sql(&mut db, "CREATE INDEX idx_age ON users (age)").unwrap();
    let res = execute_sql(&mut db, "SELECT * FROM users WHERE age = 25").unwrap();
    match res {
        ExecutionResult::Select {
            rows,
            scanned,
            used_index,
        } => {
            assert_eq!(rows.len(), 34);
            assert!(used_index);
            assert_eq!(scanned, rows.len());
        }
        _ => panic!("预期 Select"),
    }
}

#[test]
fn drop_index_by_name() {
    let mut db = init_db();
    execute_sql(&mut db, "CREATE INDEX idx_age ON users (age)").unwrap();
    execute_sql(&mut db, "DROP INDEX idx_age ON users").unwrap();
    let res = execute_sql(&mut db, "SELECT * FROM users WHERE age = 25").unwrap();
    match res {
        ExecutionResult::Select {
            rows,
            scanned,
            used_index,
        } => {
            assert_eq!(rows.len(), 34);
            assert!(!used_index);
            assert_eq!(scanned, 1000);
        }
        _ => panic!("预期 Select"),
    }
}
