//! The statements this database understands, as plain values.
//!
//! `parser` turns SQL text into these values; everything the executor
//! decides, it decides from them.
use vstd::prelude::*;

verus! {

/// A literal value.
#[derive(Debug)]
pub enum Literal {
    Number(String),
    SingleQuoted(String),
    Boolean(bool),
    Other,
}

/// A binary operator.
#[derive(Clone, Copy, Debug, PartialEq, Eq, Structural)]
pub enum BinOp {
    And,
    Eq,
    NotEq,
    Lt,
    LtEq,
    Gt,
    GtEq,
    Other,
}

/// An expression.
#[derive(Debug)]
pub enum SqlExpr {
    Identifier(String),
    CompoundIdentifier(Vec<String>),
    BinaryOp(Box<SqlExpr>, BinOp, Box<SqlExpr>),
    Lit(Literal),
    /// A function call: its name as written and its arguments.
    Function(String, CallArgs),
    Other,
}

/// The arguments of a function call.
#[derive(Debug)]
pub enum CallArgs {
    List(Vec<CallArg>),
    Other,
}

/// One argument of a function call.
#[derive(Debug)]
pub enum CallArg {
    Unnamed(CallArgValue),
    Named(CallArgValue),
    ExprNamed,
}

/// What an argument of a function call holds.
#[derive(Debug)]
pub enum CallArgValue {
    Arg(SqlExpr),
    Wildcard,
    Other,
}

/// One item of a SELECT list.
#[derive(Debug)]
pub enum Projected {
    Wildcard,
    UnnamedExpr(SqlExpr),
    Other,
}

/// What a FROM item names.
#[derive(Debug)]
pub enum FromSource {
    Table { name: String, alias: Option<String> },
    Other,
}

/// One FROM item and the number of explicit joins that follow it.
#[derive(Debug)]
pub struct FromItem {
    pub relation: FromSource,
    pub joins: usize,
}

/// A GROUP BY clause.
#[derive(Debug)]
pub enum GroupClause {
    All,
    Expressions(Vec<SqlExpr>),
}

/// One ORDER BY item: the expression and whether it asked for ascending
/// (`Some(true)`), descending (`Some(false)`) or nothing.
#[derive(Debug)]
pub struct OrderItem {
    pub expr: SqlExpr,
    pub asc: Option<bool>,
}

/// An ORDER BY clause.
#[derive(Debug)]
pub enum OrderClause {
    All,
    Expressions(Vec<OrderItem>),
}

/// A LIMIT clause.
#[derive(Debug)]
pub enum LimitSpec {
    LimitOffset(Option<SqlExpr>),
    OffsetCommaLimit(SqlExpr),
}

/// The body of a SELECT.
#[derive(Debug)]
pub struct SelectCore {
    pub projection: Vec<Projected>,
    pub from: Vec<FromItem>,
    pub selection: Option<SqlExpr>,
    pub group_by: GroupClause,
    pub having: Option<SqlExpr>,
}

/// What a query computes.
#[derive(Debug)]
pub enum QueryShape {
    Simple(SelectCore),
    Other,
}

/// A query.
#[derive(Debug)]
pub struct SelectQuery {
    pub body: QueryShape,
    pub order_by: Option<OrderClause>,
    pub limit: Option<LimitSpec>,
}

/// Where the rows of an INSERT come from.
#[derive(Debug)]
pub enum InsertRows {
    Values(Vec<Vec<SqlExpr>>),
    Other,
}

/// An INSERT statement.
#[derive(Debug)]
pub struct InsertStmt {
    pub table: String,
    pub source: Option<InsertRows>,
}

/// One assignment of an UPDATE: the target column, when it is a single
/// column, and the assigned expression.
#[derive(Debug)]
pub struct SetClause {
    pub target: Option<String>,
    pub value: SqlExpr,
}

/// An UPDATE statement.
#[derive(Debug)]
pub struct UpdateStmt {
    pub table: String,
    pub assignments: Vec<SetClause>,
    pub selection: Option<SqlExpr>,
}

/// A DELETE statement.
#[derive(Debug)]
pub struct DeleteStmt {
    pub tables: Vec<String>,
    pub from: Vec<FromItem>,
    pub selection: Option<SqlExpr>,
}

/// A CREATE TABLE statement: the table and its column names.
#[derive(Debug)]
pub struct CreateTableStmt {
    pub name: String,
    pub columns: Vec<String>,
}

/// A CREATE INDEX statement.
#[derive(Debug)]
pub struct CreateIndexStmt {
    pub name: Option<String>,
    pub table_name: String,
    pub columns: Vec<String>,
}

/// A DROP statement.
#[derive(Debug)]
pub struct DropStmt {
    pub is_index: bool,
    pub names: Vec<String>,
    pub table: Option<String>,
}

/// A statement.
#[derive(Debug)]
pub enum Stmt {
    Begin,
    Commit,
    Rollback,
    Read(SelectQuery),
    InsertInto(InsertStmt),
    UpdateSet(UpdateStmt),
    DeleteFrom(DeleteStmt),
    NewTable(CreateTableStmt),
    NewIndex(CreateIndexStmt),
    DropObject(DropStmt),
    Other,
}

} // verus!
