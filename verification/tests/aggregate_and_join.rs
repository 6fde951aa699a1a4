use std::sync::Mutex;
use wgc_db::database::Database;
use wgc_db::executor::execute_sql as run_statement;
use wgc_db::outcome::{ExecutionResult, Step};
use wgc_db::value::{Numeric, Order};
use wgc_db::wal::WalRecord;

/// The log, kept in memory: (path, record) in the order written.
static AJ_LOG: Mutex<Vec<(String, WalRecord)>> = Mutex::new(Vec::new());

fn aj_order(a: &str, b: &str) -> Option<Order> {
    match (a.parse::<f64>(), b.parse::<f64>()) {
        (Ok(x), Ok(y)) => {
            if x < y {
                Some(Order::Less)
            } else if x > y {
                Some(Order::Greater)
            } else if x == y {
                Some(Order::Equal)
            } else {
                None
            }
        }
        _ => {
            if a < b {
                Some(Order::Less)
            } else if a > b {
                Some(Order::Greater)
            } else {
                Some(Order::Equal)
            }
        }
    }
}

fn aj_numeric(kind: Numeric, values: &Vec<String>) -> String {
    let nums: Vec<f64> = values.iter().filter_map(|v| v.parse::<f64>().ok()).collect();
    let sum: f64 = nums.iter().sum();
    match kind {
        Numeric::Sum => sum.to_string(),
        Numeric::Avg => {
            if nums.is_empty() {
                "0".to_string()
            } else {
                (sum / nums.len() as f64).to_string()
            }
        }
    }
}

fn execute_sql(db: &mut Database, sql: &str) -> Result<ExecutionResult, String> {
    match run_statement(db, sql, &aj_order, &aj_numeric)? {
        Step::Done(r) => Ok(r),
        Step::Log(req) => {
            let mut log = AJ_LOG.lock().unwrap();
            for r in req.records.iter() {
                log.push((req.path.clone(), r.duplicate()));
            }
            drop(log);
            db.resume(req.after, Ok(()), &aj_order)
        }
    }
}

fn init_db() -> Database {
    let mut db = Database::new(5);
    execute_sql(&mut db, "CREATE TABLE users (id INT, name TEXT, age INT)").unwrap();
    let names = ["Alice", "Bob", "Charlie", "Diana", "Eve"];
    for i in 0..1000 {
        let sql = format!(
            "INSERT INTO users VALUES ('{}', '{}', '{}')",
            i,
            names[i % names.len()],
            20 + (i % 30)
        );
        execute_sql(&mut db, &sql).unwrap();
    }
    db
}

#[test]
fn group_by_with_having() {
    let mut db = init_db();
    execute_sql(&mut db, "UPDATE users SET age = 99 WHERE name = 'Alice'").unwrap();
    execute_sql(&mut db, "DELETE FROM users WHERE age < 25").unwrap();

    let res =
        execute_sql(&mut db, "SELECT age, COUNT(*) FROM users GROUP BY age HAVING COUNT(*) > 2")
            .unwrap();
    match res {
        ExecutionResult::Select { rows, .. } => {
            assert_eq!(rows.len(), 21);
            let age_99 = rows.iter().find(|r| r[0] == "99").unwrap();
            assert_eq!(age_99[1], "200");
            let age_26 = rows.iter().find(|r| r[0] == "26").unwrap();
            assert_eq!(age_26[1], "34");
        }
        _ => panic!("预期 Select"),
    }
}

#[test]
fn self_join_limit() {
    let mut db = init_db();
    let res = execute_sql(
        &mut db,
        "SELECT u1.name, u2.name FROM users u1, users u2 WHERE u1.age = u2.age AND u1.id < u2.id LIMIT 5",
    )
    .unwrap();
    match res {
        ExecutionResult::Select { rows, .. } => {
            assert_eq!(rows.len(), 5);
            assert!(rows.iter().all(|r| r.len() == 2));
        }
        _ => panic!("预期 Select"),
    }
}
