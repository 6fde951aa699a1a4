//! An in-memory SQL database with secondary indexes, a write-ahead log and
//! explicit transactions, verified with Verus.
pub mod text;
pub mod value;
pub mod assoc;
pub mod seqs;
pub mod condition;
pub mod table;
pub mod table_index;
pub mod table_scan;
pub mod table_update;
pub mod stats;
pub mod wal;
pub mod framing;
pub mod snapshot;
pub mod outcome;
pub mod database;
pub mod where_clause;
pub mod records;
pub mod projection;
pub mod sorting;
pub mod join;
pub mod aggregate;
pub mod select;
pub mod executor;
pub mod guarantees;
pub mod query_laws;
pub mod sql;
pub mod parser;
