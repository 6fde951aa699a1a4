//! Reading SQL text, through the `sqlparser` crate.
//!
//! `parse_sql` is the one call into the parser; the `lower_*` functions
//! copy the parser's syntax tree into the plain values of `crate::sql`,
//! one node for one node.
use vstd::prelude::*;
use sqlparser::ast;
use sqlparser::dialect::GenericDialect;
use sqlparser::parser::Parser;
use crate::sql::{
    CallArgValue, SetClause, BinOp, CreateIndexStmt, CreateTableStmt, DeleteStmt, DropStmt, SqlExpr, CallArg,
    CallArgs, GroupClause, InsertStmt, InsertRows, LimitSpec, Literal, OrderClause, OrderItem, SelectQuery,
    QueryShape, SelectCore, Projected, Stmt, FromSource, FromItem, UpdateStmt,
};

verus! {

#[verifier::external_type_specification]
#[verifier::external_body]
pub struct ExSqlStatement(ast::Statement);

#[verifier::external_type_specification]
#[verifier::external_body]
pub struct ExSqlExpr(ast::Expr);

#[verifier::external_type_specification]
#[verifier::external_body]
pub struct ExSqlBinaryOperator(ast::BinaryOperator);

#[verifier::external_type_specification]
#[verifier::external_body]
pub struct ExSqlValue(ast::Value);

#[verifier::external_type_specification]
#[verifier::external_body]
pub struct ExSqlFunctionArguments(ast::FunctionArguments);

#[verifier::external_type_specification]
#[verifier::external_body]
pub struct ExSqlFunctionArg(ast::FunctionArg);

#[verifier::external_type_specification]
#[verifier::external_body]
pub struct ExSqlFunctionArgExpr(ast::FunctionArgExpr);

#[verifier::external_type_specification]
#[verifier::external_body]
pub struct ExSqlQuery(ast::Query);

#[verifier::external_type_specification]
#[verifier::external_body]
pub struct ExSqlSetExpr(ast::SetExpr);

#[verifier::external_type_specification]
#[verifier::external_body]
pub struct ExSqlSelect(ast::Select);

#[verifier::external_type_specification]
#[verifier::external_body]
pub struct ExSqlSelectItem(ast::SelectItem);

#[verifier::external_type_specification]
#[verifier::external_body]
pub struct ExSqlTableWithJoins(ast::TableWithJoins);

#[verifier::external_type_specification]
#[verifier::external_body]
pub struct ExSqlTableFactor(ast::TableFactor);

#[verifier::external_type_specification]
#[verifier::external_body]
pub struct ExSqlGroupByExpr(ast::GroupByExpr);

#[verifier::external_type_specification]
#[verifier::external_body]
pub struct ExSqlOrderBy(ast::OrderBy);

#[verifier::external_type_specification]
#[verifier::external_body]
pub struct ExSqlOrderByExpr(ast::OrderByExpr);

#[verifier::external_type_specification]
#[verifier::external_body]
pub struct ExSqlOrderBySort(ast::OrderBySort);

#[verifier::external_type_specification]
#[verifier::external_body]
pub struct ExSqlLimitClause(ast::LimitClause);

#[verifier::external_type_specification]
#[verifier::external_body]
pub struct ExSqlInsert(ast::Insert);

#[verifier::external_type_specification]
#[verifier::external_body]
pub struct ExSqlUpdate(ast::Update);

#[verifier::external_type_specification]
#[verifier::external_body]
pub struct ExSqlAssignment(ast::Assignment);

#[verifier::external_type_specification]
#[verifier::external_body]
pub struct ExSqlAssignmentTarget(ast::AssignmentTarget);

#[verifier::external_type_specification]
#[verifier::external_body]
pub struct ExSqlDelete(ast::Delete);

#[verifier::external_type_specification]
#[verifier::external_body]
pub struct ExSqlFromTable(ast::FromTable);

#[verifier::external_type_specification]
#[verifier::external_body]
pub struct ExSqlCreateTable(ast::CreateTable);

#[verifier::external_type_specification]
#[verifier::external_body]
pub struct ExSqlCreateIndex(ast::CreateIndex);

#[verifier::external_type_specification]
#[verifier::external_body]
pub struct ExSqlObjectType(ast::ObjectType);

#[verifier::external_type_specification]
#[verifier::external_body]
pub struct ExSqlObjectName(ast::ObjectName);

/// What `sqlparser::parser::Parser::parse_sql` with the generic dialect
/// makes of a text: the statements, copied into `crate::sql`, or the text of
/// its error.
pub uninterp spec fn parsed_statements(sql: Seq<char>) -> Result<Vec<Stmt>, Seq<char>>;

/// Parses `sql` with `sqlparser::parser::Parser::parse_sql` and the
/// generic dialect. Claimed: the outcome is a function of the text alone
/// (`parsed_statements`); an error is reported by its `Display` text.
#[verifier::external_body]
pub(crate) fn parse_sql(sql: &str) -> (r: Result<Vec<Stmt>, String>)
    ensures
        match r {
            Ok(v) => parsed_statements(sql@) == Ok::<Vec<Stmt>, Seq<char>>(v),
            Err(e) => parsed_statements(sql@) == Err::<Vec<Stmt>, Seq<char>>(e@),
        },
{
    match Parser::parse_sql(&GenericDialect {}, sql) {
        Ok(stmts) => Ok(stmts.iter().map(lower_statement).collect()),
        Err(e) => Err(e.to_string()),
    }
}

/// Copies a parsed statement; statements this database does not run
/// become `Stmt::Other`.
#[verifier::external_body]
fn lower_statement(s: &ast::Statement) -> Stmt {
    match s {
        ast::Statement::StartTransaction { .. } => Stmt::Begin,
        ast::Statement::Commit { .. } => Stmt::Commit,
        ast::Statement::Rollback { .. } => Stmt::Rollback,
        ast::Statement::Query(q) => Stmt::Read(lower_query(q)),
        ast::Statement::Insert(i) => Stmt::InsertInto(lower_insert(i)),
        ast::Statement::Update(u) => Stmt::UpdateSet(lower_update(u)),
        ast::Statement::Delete(d) => Stmt::DeleteFrom(lower_delete(d)),
        ast::Statement::CreateTable(c) => Stmt::NewTable(lower_create_table(c)),
        ast::Statement::CreateIndex(c) => Stmt::NewIndex(lower_create_index(c)),
        ast::Statement::Drop { object_type, names, table, .. } => Stmt::DropObject(
            lower_drop(object_type, names, table),
        ),
        _ => Stmt::Other,
    }
}

/// Copies an expression, node for node.
#[verifier::external_body]
fn lower_expr(e: &ast::Expr) -> SqlExpr {
    match e {
        ast::Expr::Identifier(i) => SqlExpr::Identifier(i.value.clone()),
        ast::Expr::CompoundIdentifier(p) => SqlExpr::CompoundIdentifier(
            p.iter().map(|i| i.value.clone()).collect(),
        ),
        ast::Expr::BinaryOp { left, op, right } => SqlExpr::BinaryOp(
            Box::new(lower_expr(left)),
            lower_op(op),
            Box::new(lower_expr(right)),
        ),
        ast::Expr::Value(v) => SqlExpr::Lit(lower_value(&v.value)),
        ast::Expr::Function(f) => SqlExpr::Function(f.name.to_string(), lower_args(&f.args)),
        _ => SqlExpr::Other,
    }
}

/// Copies a binary operator.
#[verifier::external_body]
fn lower_op(op: &ast::BinaryOperator) -> BinOp {
    match op {
        ast::BinaryOperator::And => BinOp::And,
        ast::BinaryOperator::Eq => BinOp::Eq,
        ast::BinaryOperator::NotEq => BinOp::NotEq,
        ast::BinaryOperator::Lt => BinOp::Lt,
        ast::BinaryOperator::LtEq => BinOp::LtEq,
        ast::BinaryOperator::Gt => BinOp::Gt,
        ast::BinaryOperator::GtEq => BinOp::GtEq,
        _ => BinOp::Other,
    }
}

/// Copies a literal.
#[verifier::external_body]
fn lower_value(v: &ast::Value) -> Literal {
    match v {
        ast::Value::Number(n, _) => Literal::Number(n.clone()),
        ast::Value::SingleQuotedString(s) => Literal::SingleQuoted(s.clone()),
        ast::Value::Boolean(b) => Literal::Boolean(*b),
        _ => Literal::Other,
    }
}

/// Copies the arguments of a function call.
#[verifier::external_body]
fn lower_args(a: &ast::FunctionArguments) -> CallArgs {
    match a {
        ast::FunctionArguments::List(l) => CallArgs::List(
            l.args.iter().map(lower_arg).collect(),
        ),
        _ => CallArgs::Other,
    }
}

/// Copies one argument of a function call.
#[verifier::external_body]
fn lower_arg(a: &ast::FunctionArg) -> CallArg {
    match a {
        ast::FunctionArg::Unnamed(x) => CallArg::Unnamed(lower_arg_expr(x)),
        ast::FunctionArg::Named { arg, .. } => CallArg::Named(lower_arg_expr(arg)),
        ast::FunctionArg::ExprNamed { .. } => CallArg::ExprNamed,
    }
}

/// Copies what an argument of a function call holds.
#[verifier::external_body]
fn lower_arg_expr(x: &ast::FunctionArgExpr) -> CallArgValue {
    match x {
        ast::FunctionArgExpr::Expr(e) => CallArgValue::Arg(lower_expr(e)),
        ast::FunctionArgExpr::Wildcard => CallArgValue::Wildcard,
        _ => CallArgValue::Other,
    }
}

/// Copies a query: its body, ORDER BY and LIMIT.
#[verifier::external_body]
fn lower_query(q: &ast::Query) -> SelectQuery {
    SelectQuery {
        body: lower_body(&q.body),
        order_by: q.order_by.as_ref().map(lower_order_by),
        limit: q.limit_clause.as_ref().map(lower_limit),
    }
}

/// Copies the body of a query when it is a plain SELECT.
#[verifier::external_body]
fn lower_body(b: &ast::SetExpr) -> QueryShape {
    match b {
        ast::SetExpr::Select(s) => QueryShape::Simple(lower_select(s)),
        _ => QueryShape::Other,
    }
}

/// Copies a SELECT: its list, FROM, WHERE, GROUP BY and HAVING.
#[verifier::external_body]
fn lower_select(s: &ast::Select) -> SelectCore {
    SelectCore {
        projection: s.projection.iter().map(lower_select_item).collect(),
        from: s.from.iter().map(lower_table_with_joins).collect(),
        selection: s.selection.as_ref().map(lower_expr),
        group_by: lower_group_by(&s.group_by),
        having: s.having.as_ref().map(lower_expr),
    }
}

/// Copies one item of a SELECT list.
#[verifier::external_body]
fn lower_select_item(i: &ast::SelectItem) -> Projected {
    match i {
        ast::SelectItem::Wildcard(_) => Projected::Wildcard,
        ast::SelectItem::UnnamedExpr(e) => Projected::UnnamedExpr(lower_expr(e)),
        _ => Projected::Other,
    }
}

/// Copies one FROM item with the number of joins that follow it.
#[verifier::external_body]
fn lower_table_with_joins(t: &ast::TableWithJoins) -> FromItem {
    FromItem { relation: lower_table_factor(&t.relation), joins: t.joins.len() }
}

/// Copies what a FROM item names: a table's name as displayed and its alias.
#[verifier::external_body]
fn lower_table_factor(t: &ast::TableFactor) -> FromSource {
    match t {
        ast::TableFactor::Table { name, alias, .. } => FromSource::Table {
            name: name.to_string(),
            alias: alias.as_ref().map(|a| a.name.value.clone()),
        },
        _ => FromSource::Other,
    }
}

/// Copies a GROUP BY clause.
#[verifier::external_body]
fn lower_group_by(g: &ast::GroupByExpr) -> GroupClause {
    match g {
        ast::GroupByExpr::All(_) => GroupClause::All,
        ast::GroupByExpr::Expressions(es, _) => GroupClause::Expressions(
            es.iter().map(lower_expr).collect(),
        ),
    }
}

/// Copies an ORDER BY clause.
#[verifier::external_body]
fn lower_order_by(o: &ast::OrderBy) -> OrderClause {
    match &o.kind {
        ast::OrderByKind::All(_) => OrderClause::All,
        ast::OrderByKind::Expressions(es) => OrderClause::Expressions(
            es.iter().map(lower_order_by_expr).collect(),
        ),
    }
}

/// Copies one ORDER BY item: its expression and its direction.
#[verifier::external_body]
fn lower_order_by_expr(e: &ast::OrderByExpr) -> OrderItem {
    OrderItem { expr: lower_expr(&e.expr), asc: e.options.sort.as_ref().and_then(lower_sort) }
}

/// Copies the direction of an ORDER BY item: ASC, DESC, or none for USING.
#[verifier::external_body]
fn lower_sort(s: &ast::OrderBySort) -> Option<bool> {
    match s {
        ast::OrderBySort::Asc => Some(true),
        ast::OrderBySort::Desc => Some(false),
        ast::OrderBySort::Using(_) => None,
    }
}

/// Copies a LIMIT clause.
#[verifier::external_body]
fn lower_limit(l: &ast::LimitClause) -> LimitSpec {
    match l {
        ast::LimitClause::LimitOffset { limit, .. } => LimitSpec::LimitOffset(
            limit.as_ref().map(lower_expr),
        ),
        ast::LimitClause::OffsetCommaLimit { limit, .. } => LimitSpec::OffsetCommaLimit(
            lower_expr(limit),
        ),
    }
}

/// Copies an INSERT: the table as displayed and where its rows come from.
#[verifier::external_body]
fn lower_insert(i: &ast::Insert) -> InsertStmt {
    InsertStmt {
        table: i.table.to_string(),
        source: i.source.as_ref().map(|q| lower_insert_source(&q.body)),
    }
}

/// Copies the rows of an INSERT when they are given by VALUES.
#[verifier::external_body]
fn lower_insert_source(b: &ast::SetExpr) -> InsertRows {
    match b {
        ast::SetExpr::Values(v) => InsertRows::Values(
            v.rows.iter().map(|r| r.content.iter().map(lower_expr).collect()).collect(),
        ),
        _ => InsertRows::Other,
    }
}

/// Copies an UPDATE: the table as displayed, the assignments and WHERE.
#[verifier::external_body]
fn lower_update(u: &ast::Update) -> UpdateStmt {
    UpdateStmt {
        table: u.table.to_string(),
        assignments: u.assignments.iter().map(lower_assignment).collect(),
        selection: u.selection.as_ref().map(lower_expr),
    }
}

/// Copies one assignment of an UPDATE.
#[verifier::external_body]
fn lower_assignment(a: &ast::Assignment) -> SetClause {
    SetClause { target: lower_target(&a.target), value: lower_expr(&a.value) }
}

/// Copies the target of an assignment: a single column's name as displayed.
#[verifier::external_body]
fn lower_target(t: &ast::AssignmentTarget) -> Option<String> {
    match t {
        ast::AssignmentTarget::ColumnName(n) => Some(n.to_string()),
        ast::AssignmentTarget::Tuple(_) => None,
    }
}

/// Copies a DELETE: the tables named before FROM, the FROM items and WHERE.
#[verifier::external_body]
fn lower_delete(d: &ast::Delete) -> DeleteStmt {
    DeleteStmt {
        tables: d.tables.iter().map(|n| n.to_string()).collect(),
        from: lower_from(&d.from),
        selection: d.selection.as_ref().map(lower_expr),
    }
}

/// Copies the FROM items of a DELETE, with or without the FROM keyword.
#[verifier::external_body]
fn lower_from(f: &ast::FromTable) -> Vec<FromItem> {
    match f {
        ast::FromTable::WithFromKeyword(t) => t.iter().map(lower_table_with_joins).collect(),
        ast::FromTable::WithoutKeyword(t) => t.iter().map(lower_table_with_joins).collect(),
    }
}

/// Copies a CREATE TABLE: the table as displayed and the column names.
#[verifier::external_body]
fn lower_create_table(c: &ast::CreateTable) -> CreateTableStmt {
    CreateTableStmt {
        name: c.name.to_string(),
        columns: c.columns.iter().map(|col| col.name.value.clone()).collect(),
    }
}

/// Copies a CREATE INDEX: its name, table and columns as displayed.
#[verifier::external_body]
fn lower_create_index(c: &ast::CreateIndex) -> CreateIndexStmt {
    CreateIndexStmt {
        name: c.name.as_ref().map(|n| n.to_string()),
        table_name: c.table_name.to_string(),
        columns: c.columns.iter().map(|i| i.column.to_string()).collect(),
    }
}

/// Copies a DROP: whether it drops an index, the names and the ON table.
#[verifier::external_body]
fn lower_drop(
    object_type: &ast::ObjectType,
    names: &Vec<ast::ObjectName>,
    table: &Option<ast::ObjectName>,
) -> DropStmt {
    DropStmt {
        is_index: lower_is_index(object_type),
        names: names.iter().map(|n| n.to_string()).collect(),
        table: table.as_ref().map(|n| n.to_string()),
    }
}

/// Tells the INDEX object type apart from the others.
#[verifier::external_body]
fn lower_is_index(t: &ast::ObjectType) -> bool {
    match t {
        ast::ObjectType::Index => true,
        _ => false,
    }
}

} // verus!
