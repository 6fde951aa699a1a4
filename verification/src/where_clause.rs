//! Reading a WHERE clause into a list of conditions.
use vstd::prelude::*;
use crate::condition::{Condition, ConditionView};
use crate::sql::{BinOp, Literal, SqlExpr};
use crate::text::{join_strings, joined};

verus! {

broadcast use vstd::string::group_string_axioms;

/// The text of a comparison operator; any other operator reads `unknown`.
pub open spec fn op_text(op: BinOp) -> Seq<char> {
    match op {
        BinOp::Eq => "="@,
        BinOp::NotEq => "!="@,
        BinOp::Lt => "<"@,
        BinOp::LtEq => "<="@,
        BinOp::Gt => ">"@,
        BinOp::GtEq => ">="@,
        _ => "unknown"@,
    }
}

/// The text of a comparison operator.
pub fn op_to_str(op: BinOp) -> (r: &'static str)
    ensures
        r@ == op_text(op),
{
    match op {
        BinOp::Eq => "=",
        BinOp::NotEq => "!=",
        BinOp::Lt => "<",
        BinOp::LtEq => "<=",
        BinOp::Gt => ">",
        BinOp::GtEq => ">=",
        _ => "unknown",
    }
}

/// The column an expression names: a plain name, or the parts of a
/// qualified name joined with dots.
pub open spec fn column_name_of(e: SqlExpr) -> Option<Seq<char>> {
    match e {
        SqlExpr::Identifier(v) => Some(v@),
        SqlExpr::CompoundIdentifier(parts) => Some(joined(parts.deep_view(), "."@)),
        _ => None,
    }
}

/// The text of a literal: a string, a number as written, or `true` /
/// `false`.
pub open spec fn literal_of(e: SqlExpr) -> Option<Seq<char>> {
    match e {
        SqlExpr::Lit(Literal::SingleQuoted(s)) => Some(s@),
        SqlExpr::Lit(Literal::Number(n)) => Some(n@),
        SqlExpr::Lit(Literal::Boolean(b)) => Some(if b { "true"@ } else { "false"@ }),
        _ => None,
    }
}

/// The conditions of a WHERE clause (`None` when it is not a conjunction
/// of comparisons between a column and a column or a literal).
pub open spec fn conditions_of(e: SqlExpr) -> Option<Seq<ConditionView>>
    decreases e,
{
    match e {
        SqlExpr::BinaryOp(l, op, r) => {
            if op == BinOp::And {
                match (conditions_of(*l), conditions_of(*r)) {
                    (Some(a), Some(b)) => Some(a + b),
                    _ => None,
                }
            } else {
                match column_name_of(*l) {
                    None => None,
                    Some(col) => match column_name_of(*r) {
                        Some(c2) => Some(
                            seq![ConditionView { col, op: op_text(op), val: c2, rhs_is_column: true }],
                        ),
                        None => match literal_of(*r) {
                            Some(v) => Some(
                                seq![ConditionView { col, op: op_text(op), val: v, rhs_is_column: false }],
                            ),
                            None => None,
                        },
                    },
                }
            }
        },
        _ => None,
    }
}

/// The text of the error reading a WHERE clause gives, where it gives one:
/// the first part, left to right, that cannot be read.
pub open spec fn conditions_error(e: SqlExpr) -> Seq<char>
    decreases e,
{
    match e {
        SqlExpr::BinaryOp(l, op, r) => {
            if op == BinOp::And {
                if conditions_of(*l) is None {
                    conditions_error(*l)
                } else {
                    conditions_error(*r)
                }
            } else if column_name_of(*l) is None {
                "Not a column name"@
            } else {
                "Right side must be a literal or column"@
            }
        },
        _ => "Unsupported WHERE clause format"@,
    }
}

/// The column an expression names.
pub fn extract_column_name(expr: &SqlExpr) -> (r: Result<String, String>)
    ensures
        match r {
            Ok(s) => column_name_of(*expr) == Some(s@),
            Err(e) => column_name_of(*expr) is None && e@ == "Not a column name"@,
        },
{
    match expr {
        SqlExpr::Identifier(v) => Ok(v.clone()),
        SqlExpr::CompoundIdentifier(parts) => Ok(join_strings(parts, ".")),
        _ => Err("Not a column name".to_string()),
    }
}

/// The text of a literal.
pub fn extract_literal_value(expr: &SqlExpr) -> (r: Result<String, String>)
    ensures
        match r {
            Ok(s) => literal_of(*expr) == Some(s@),
            Err(e) => literal_of(*expr) is None && e@ == if expr is Lit {
                "Unsupported literal value"@
            } else {
                "Not a literal"@
            },
        },
{
    match expr {
        SqlExpr::Lit(Literal::SingleQuoted(s)) => Ok(s.clone()),
        SqlExpr::Lit(Literal::Number(n)) => Ok(n.clone()),
        SqlExpr::Lit(Literal::Boolean(b)) => {
            proof {
                reveal_strlit("true");
                reveal_strlit("false");
            }
            if *b {
                Ok("true".to_string())
            } else {
                Ok("false".to_string())
            }
        },
        SqlExpr::Lit(_) => Err("Unsupported literal value".to_string()),
        _ => Err("Not a literal".to_string()),
    }
}

/// Reads a WHERE clause made of comparisons joined by AND, left to right.
pub fn extract_conditions(expr: &SqlExpr) -> (r: Result<Vec<Condition>, String>)
    ensures
        match r {
            Ok(v) => conditions_of(*expr) == Some(crate::condition::conditions_view(v@)),
            Err(e) => conditions_of(*expr) is None && e@ == conditions_error(*expr),
        },
    decreases expr,
{
    match expr {
        SqlExpr::BinaryOp(l, op, r) => {
            if *op == BinOp::And {
                let mut a = extract_conditions(l)?;
                let mut b = extract_conditions(r)?;
                let ghost av = crate::condition::conditions_view(a@);
                let ghost bv = crate::condition::conditions_view(b@);
                a.append(&mut b);
                proof {
                    assert(crate::condition::conditions_view(a@) =~= av + bv);
                }
                Ok(a)
            } else {
                let col = extract_column_name(l)?;
                let op_str = op_to_str(*op).to_string();
                match extract_column_name(r) {
                    Ok(c2) => {
                        let v = vec![Condition { col, op: op_str, val: c2, rhs_is_column: true }];
                        proof {
                            assert(crate::condition::conditions_view(v@) =~= seq![
                                ConditionView { col: col@, op: op_text(*op), val: c2@, rhs_is_column: true },
                            ]);
                        }
                        Ok(v)
                    },
                    Err(_) => match extract_literal_value(r) {
                        Ok(lit) => {
                            let v = vec![Condition { col, op: op_str, val: lit, rhs_is_column: false }];
                            proof {
                                assert(crate::condition::conditions_view(v@) =~= seq![
                                    ConditionView { col: col@, op: op_text(*op), val: lit@, rhs_is_column: false },
                                ]);
                            }
                            Ok(v)
                        },
                        Err(_) => Err("Right side must be a literal or column".to_string()),
                    },
                }
            }
        },
        _ => Err("Unsupported WHERE clause format".to_string()),
    }
}

} // verus!
