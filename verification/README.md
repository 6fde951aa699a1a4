# wgc_db

A small in-memory SQL database with a write-ahead log, written in Verus.

`src/` is the verified library:

- `table*.rs`: tables of rows kept in ascending id order, with column
  indexes that always agree with the rows (the table's well-formedness).
- `condition.rs`, `where_clause.rs`, `value.rs`: WHERE conditions and how
  values compare.
- `select.rs`, `projection.rs`, `sorting.rs`, `aggregate.rs`, `join.rs`:
  SELECT on one table (through an index where one serves), GROUP BY and
  HAVING, nested-loop joins, and a stable ORDER BY with LIMIT.
- `records.rs`, `wal.rs`, `database.rs`, `executor.rs`: write statements as
  log records, transactions, replay of the log, and the statement loop.
- `framing.rs`: the log file's framing (a four-byte length before each
  record), and reading it back up to a record cut short.
- `snapshot.rs`: checking a database put together from a snapshot's parts
  before anything runs on it.
- `guarantees.rs`: laws across operations, such as what replaying the log
  gives back, what a rollback restores, and what an update or a delete
  leaves.
- `parser.rs`: the one place that calls `sqlparser`; `sql.rs` holds the
  statements as plain values.

Value comparison and SUM/AVG work on floating point, so the library takes
them as functions from its caller. Writing the log is left to the caller
too: a write returns the records to log, and `Database::resume` finishes it
once they are written.

`app/` is the program around the library: the command-line demo, a TCP
server that answers in JSON, and the log and snapshot files.
