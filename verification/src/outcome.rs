//! What running a statement gives back, and the log writes that a statement
//! waits for before it takes effect.
use vstd::prelude::*;
use crate::wal::{RecordView, WalRecord};

verus! {

/// The result of one statement.
#[derive(Debug)]
pub enum ExecutionResult {
    Select { rows: Vec<Vec<String>>, scanned: usize, used_index: bool },
    Insert { count: usize },
    Update { count: usize },
    Delete { count: usize },
    CreateTable,
    CreateIndex,
    DropIndex,
    /// A write held in the open transaction; it has no effect yet.
    Pending,
    BeginTransaction,
    CommitTransaction,
    RollbackTransaction,
}

/// What is left to do once the log records have been written.
#[derive(Debug)]
pub enum AfterLog {
    /// Apply one write and report its result.
    Apply(WalRecord),
    /// Apply the writes of a committed transaction, in order.
    ApplyAll(Vec<WalRecord>),
    /// Report the rollback.
    RolledBack,
}

/// Records to append to the log at `path`, and what to do after.
#[derive(Debug)]
pub struct LogRequest {
    pub path: String,
    pub records: Vec<WalRecord>,
    pub after: AfterLog,
}

/// A statement either finished, or waits for its log records to be written.
#[derive(Debug)]
pub enum Step {
    Done(ExecutionResult),
    Log(LogRequest),
}

/// The contents of an `AfterLog`.
pub enum AfterLogView {
    Apply(RecordView),
    ApplyAll(Seq<RecordView>),
    RolledBack,
}

impl View for AfterLog {
    type V = AfterLogView;

    open spec fn view(&self) -> AfterLogView {
        match self {
            AfterLog::Apply(r) => AfterLogView::Apply(r@),
            AfterLog::ApplyAll(rs) => AfterLogView::ApplyAll(rs@.map_values(|r: WalRecord| r@)),
            AfterLog::RolledBack => AfterLogView::RolledBack,
        }
    }
}

} // verus!
