//! Aggregate queries: GROUP BY, the aggregates COUNT / SUM / AVG, and HAVING.
use vstd::prelude::*;
use crate::condition::{conditions_view, Condition, ConditionView};
use crate::database::Database;
use crate::join::TableRef;
use crate::outcome::ExecutionResult;
use crate::projection::{
    aggregate_named, named_aggregate, AggView, AggregateFunction, ColView, ColumnExpr, ProjView, ProjectionInfo, col_views,
};
use crate::seqs::{lemma_filter_members, lemma_filter_take_step};
use crate::sorting::{apply_order_limit, check_sort_fits, limit_spec, order_limit_error, order_spec, ordered_limited, rows_deep, sort_fits};
use crate::sql::{BinOp, CallArg, CallArgValue, CallArgs, GroupClause, LimitSpec, Literal, OrderClause, SqlExpr};
use crate::table::TableView;
use crate::table_scan::passing_rows;
use crate::text::{
    decimal, find_position, join_strings, joined, piece, position, split_nth, to_uppercase, upper_text,
    usize_to_string,
};
use crate::value::{
    compare_vals, is_antisymmetric, is_numeric_fn, is_value_order, numeric_of, order_of, str_equal, summarize,
    Numeric, Order,
};

verus! {

broadcast use {vstd::seq_lib::group_seq_properties, vstd::string::group_string_axioms};

/// The rows behind a list of references.
pub open spec fn refs_deep(rows: Seq<&Vec<String>>) -> Seq<Seq<Seq<char>>> {
    rows.map_values(|r: &Vec<String>| r.deep_view())
}

/// Rows whose value at `i` is not `NULL`.
pub open spec fn not_null_at(i: int) -> spec_fn(Seq<Seq<char>>) -> bool {
    |r: Seq<Seq<char>>| r[i] != "NULL"@
}

/// The values at `i` of the rows.
pub open spec fn values_at(rows: Seq<Seq<Seq<char>>>, i: int) -> Seq<Seq<char>> {
    rows.map_values(|r: Seq<Seq<char>>| r[i])
}

/// What an aggregate gives over the rows of a group: COUNT(*) counts the
/// rows, COUNT(col) those whose value is not `NULL`, SUM and AVG are what
/// `numeric` writes for the column's values. `None` for an unknown column.
pub open spec fn agg_value<N: Fn(Numeric, &Vec<String>) -> String>(
    numeric: N,
    a: AggView,
    rows: Seq<Seq<Seq<char>>>,
    columns: Seq<Seq<char>>,
) -> Option<Seq<char>> {
    match a {
        AggView::Count(c) => if c == "*"@ {
            Some(decimal(rows.len()))
        } else {
            match position(columns, c) {
                Some(i) => Some(decimal(rows.filter(not_null_at(i)).len())),
                None => None,
            }
        },
        AggView::Sum(c) => match position(columns, c) {
            Some(i) => Some(numeric_of(numeric, Numeric::Sum, values_at(rows, i))),
            None => None,
        },
        AggView::Avg(c) => match position(columns, c) {
            Some(i) => Some(numeric_of(numeric, Numeric::Avg, values_at(rows, i))),
            None => None,
        },
    }
}

/// The column an aggregate reads in each row (none for COUNT(*)).
pub open spec fn agg_column(a: AggView) -> Option<Seq<char>> {
    match a {
        AggView::Count(c) => if c == "*"@ {
            None
        } else {
            Some(c)
        },
        AggView::Sum(c) => Some(c),
        AggView::Avg(c) => Some(c),
    }
}

/// Every row reaches the value an aggregate reads in it.
pub open spec fn agg_rows_reach(a: AggView, rows: Seq<&Vec<String>>, columns: Seq<Seq<char>>) -> bool {
    agg_column(a) matches Some(c) ==> (position(columns, c) matches Some(p) ==> forall|i: int|
        0 <= i < rows.len() ==> p < (#[trigger] rows[i])@.len())
}

/// Computes an aggregate over the rows of a group.
pub fn compute_agg<N: Fn(Numeric, &Vec<String>) -> String>(
    func: &AggregateFunction,
    rows: &Vec<&Vec<String>>,
    columns: &Vec<String>,
    numeric: &N,
) -> (r: Result<String, String>)
    requires
        is_numeric_fn(*numeric),
        agg_rows_reach(func@, rows@, columns.deep_view()),
    ensures
        match r {
            Ok(s) => agg_value(*numeric, func@, refs_deep(rows@), columns.deep_view()) == Some(s@),
            Err(e) => agg_value(*numeric, func@, refs_deep(rows@), columns.deep_view()) is None && e@ == "列不存在"@,
        },
{
    let ghost rv = refs_deep(rows@);
    proof {
        reveal_strlit("*");
        reveal_strlit("NULL");
    }
    match func {
        AggregateFunction::Count(arg) => {
            if str_equal(arg.as_str(), "*") {
                return Ok(usize_to_string(rows.len()));
            }
            let idx = match find_position(columns, arg) {
                Some(i) => i,
                None => {
                    return Err("列不存在".to_string());
                },
            };
            let ghost pred = not_null_at(idx as int);
            let mut count: usize = 0;
            let mut j: usize = 0;
            proof {
                reveal(Seq::filter);
                assert(rv.take(0) =~= Seq::<Seq<Seq<char>>>::empty());
            }
            while j < rows.len()
                invariant
                    j <= rows@.len(),
                    rv == refs_deep(rows@),
                    pred == not_null_at(idx as int),
                    idx < columns@.len(),
                    forall|i: int| 0 <= i < rows@.len() ==> idx < (#[trigger] rows@[i])@.len(),
                    count == rv.take(j as int).filter(pred).len(),
                    count <= j,
                decreases rows@.len() - j,
            {
                proof {
                    lemma_filter_take_step(rv, pred, j as int);
                    assert(rv[j as int][idx as int] == rows@[j as int]@[idx as int]@);
                }
                if !str_equal(rows[j][idx].as_str(), "NULL") {
                    count = count + 1;
                }
                j = j + 1;
            }
            proof {
                assert(rv.take(rows@.len() as int) =~= rv);
            }
            Ok(usize_to_string(count))
        },
        AggregateFunction::Sum(arg) | AggregateFunction::Avg(arg) => {
            let idx = match find_position(columns, arg) {
                Some(i) => i,
                None => {
                    return Err("列不存在".to_string());
                },
            };
            let mut vals: Vec<String> = Vec::new();
            let mut j: usize = 0;
            while j < rows.len()
                invariant
                    j <= rows@.len(),
                    rv == refs_deep(rows@),
                    idx < columns@.len(),
                    forall|i: int| 0 <= i < rows@.len() ==> idx < (#[trigger] rows@[i])@.len(),
                    vals@.len() == j,
                    forall|q: int| 0 <= q < j ==> #[trigger] vals@[q]@ == rv[q][idx as int],
                decreases rows@.len() - j,
            {
                vals.push(rows[j][idx].clone());
                j = j + 1;
            }
            proof {
                assert(vals.deep_view() =~= values_at(rv, idx as int));
            }
            let kind = match func {
                AggregateFunction::Sum(_) => Numeric::Sum,
                _ => Numeric::Avg,
            };
            Ok(summarize(numeric, kind, &vals))
        },
    }
}

/// The argument of an aggregate in HAVING: `*` without one, else a plain
/// column name or `*`.
pub open spec fn having_arg(l: Seq<CallArg>) -> Option<Seq<char>> {
    if l.len() == 0 {
        Some("*"@)
    } else {
        match l[0] {
            CallArg::Unnamed(CallArgValue::Wildcard) => Some("*"@),
            CallArg::Unnamed(CallArgValue::Arg(SqlExpr::Identifier(v))) => Some(v@),
            _ => None,
        }
    }
}

/// The value of one side of a HAVING comparison: a number or string
/// literal, or an aggregate over the group.
pub open spec fn having_value<N: Fn(Numeric, &Vec<String>) -> String>(
    numeric: N,
    e: SqlExpr,
    rows: Seq<Seq<Seq<char>>>,
    columns: Seq<Seq<char>>,
) -> Option<Seq<char>> {
    match e {
        SqlExpr::Lit(Literal::Number(n)) => Some(n@),
        SqlExpr::Lit(Literal::SingleQuoted(s)) => Some(s@),
        SqlExpr::Function(name, CallArgs::List(l)) => match having_arg(l@) {
            None => None,
            Some(a) => match named_aggregate(upper_text(name@), a) {
                Some(g) => agg_value(numeric, g, rows, columns),
                None => None,
            },
        },
        _ => None,
    }
}

/// The text of the error reading one side of a HAVING comparison gives,
/// where it gives one.
pub open spec fn having_value_error(e: SqlExpr) -> Seq<char> {
    match e {
        SqlExpr::Lit(_) => "不支持的常量"@,
        SqlExpr::Function(name, CallArgs::List(l)) => match having_arg(l@) {
            None => "参数错误"@,
            Some(a) => if named_aggregate(upper_text(name@), a) is None {
                "不支持的聚合函数"@
            } else {
                "列不存在"@
            },
        },
        SqlExpr::Function(_, CallArgs::Other) => "不支持的函数参数"@,
        _ => "HAVING 表达式过于复杂"@,
    }
}

/// The text of the error checking HAVING gives, where it gives one: that of
/// the left side first.
pub open spec fn having_error<N: Fn(Numeric, &Vec<String>) -> String>(
    numeric: N,
    e: SqlExpr,
    rows: Seq<Seq<Seq<char>>>,
    columns: Seq<Seq<char>>,
) -> Seq<char> {
    match e {
        SqlExpr::BinaryOp(l, _, r) => if having_value(numeric, *l, rows, columns) is None {
            having_value_error(*l)
        } else {
            having_value_error(*r)
        },
        _ => "HAVING 仅支持简单比较"@,
    }
}

/// Whether a group passes HAVING: only `=`, `<` and `>` can hold, by the
/// value order; `None` when the clause is no comparison or a side fails.
pub open spec fn having_holds<O: Fn(&str, &str) -> Option<Order>, N: Fn(Numeric, &Vec<String>) -> String>(
    order: O,
    numeric: N,
    e: SqlExpr,
    rows: Seq<Seq<Seq<char>>>,
    columns: Seq<Seq<char>>,
) -> Option<bool> {
    match e {
        SqlExpr::BinaryOp(l, op, r) => match (having_value(numeric, *l, rows, columns), having_value(numeric, *r, rows, columns)) {
            (Some(a), Some(b)) => Some(
                match order_of(order, a, b) {
                    Some(Order::Equal) => op == BinOp::Eq,
                    Some(Order::Less) => op == BinOp::Lt,
                    Some(Order::Greater) => op == BinOp::Gt,
                    None => false,
                },
            ),
            _ => None,
        },
        _ => None,
    }
}

/// Computes one side of a HAVING comparison.
pub fn eval_having_expr<N: Fn(Numeric, &Vec<String>) -> String>(
    expr: &SqlExpr,
    rows: &Vec<&Vec<String>>,
    columns: &Vec<String>,
    numeric: &N,
) -> (r: Result<String, String>)
    requires
        is_numeric_fn(*numeric),
        forall|i: int| 0 <= i < rows@.len() ==> (#[trigger] rows@[i])@.len() == columns@.len(),
    ensures
        match r {
            Ok(s) => having_value(*numeric, *expr, refs_deep(rows@), columns.deep_view()) == Some(s@),
            Err(e) => having_value(*numeric, *expr, refs_deep(rows@), columns.deep_view()) is None && e@
                == having_value_error(*expr),
        },
{
    proof {
        reveal_strlit("*");
    }
    match expr {
        SqlExpr::Lit(Literal::Number(n)) => Ok(n.clone()),
        SqlExpr::Lit(Literal::SingleQuoted(s)) => Ok(s.clone()),
        SqlExpr::Lit(_) => Err("不支持的常量".to_string()),
        SqlExpr::Function(name, args) => {
            let up = to_uppercase(name.as_str());
            let list = match args {
                CallArgs::List(l) => l,
                CallArgs::Other => {
                    return Err("不支持的函数参数".to_string());
                },
            };
            let arg: String = if list.len() == 0 {
                "*".to_string()
            } else {
                match &list[0] {
                    CallArg::Unnamed(CallArgValue::Wildcard) => "*".to_string(),
                    CallArg::Unnamed(CallArgValue::Arg(SqlExpr::Identifier(id))) => id.clone(),
                    _ => {
                        return Err("参数错误".to_string());
                    },
                }
            };
            match aggregate_named(up.as_str(), arg) {
                Some(f) => compute_agg(&f, rows, columns, numeric),
                None => Err("不支持的聚合函数".to_string()),
            }
        },
        _ => Err("HAVING 表达式过于复杂".to_string()),
    }
}

/// Checks HAVING on one group.
pub fn evaluate_having<O: Fn(&str, &str) -> Option<Order>, N: Fn(Numeric, &Vec<String>) -> String>(
    expr: &SqlExpr,
    rows: &Vec<&Vec<String>>,
    columns: &Vec<String>,
    order: &O,
    numeric: &N,
) -> (r: Result<bool, String>)
    requires
        is_value_order(*order),
        is_numeric_fn(*numeric),
        forall|i: int| 0 <= i < rows@.len() ==> (#[trigger] rows@[i])@.len() == columns@.len(),
    ensures
        match r {
            Ok(b) => having_holds(*order, *numeric, *expr, refs_deep(rows@), columns.deep_view()) == Some(b),
            Err(e) => having_holds(*order, *numeric, *expr, refs_deep(rows@), columns.deep_view()) is None && e@
                == having_error(*numeric, *expr, refs_deep(rows@), columns.deep_view()),
        },
{
    match expr {
        SqlExpr::BinaryOp(left, op, right) => {
            let left_val = eval_having_expr(left, rows, columns, numeric)?;
            let right_val = eval_having_expr(right, rows, columns, numeric)?;
            match compare_vals(order, left_val.as_str(), right_val.as_str()) {
                Some(Order::Equal) => Ok(*op == BinOp::Eq),
                Some(Order::Less) => Ok(*op == BinOp::Lt),
                Some(Order::Greater) => Ok(*op == BinOp::Gt),
                None => Ok(false),
            }
        },
        _ => Err("HAVING 仅支持简单比较".to_string()),
    }
}

/// The GROUP BY columns: the named ones, or every column for GROUP BY ALL;
/// `None` when an item is no plain column name.
pub open spec fn group_cols_of(g: GroupClause, all_columns: Seq<Seq<char>>) -> Option<Seq<Seq<char>>> {
    match g {
        GroupClause::All => Some(all_columns),
        GroupClause::Expressions(es) => if forall|i: int| 0 <= i < es@.len() ==> (#[trigger] es@[i]) is Identifier {
            Some(
                es@.map_values(
                    |e: SqlExpr| match e {
                        SqlExpr::Identifier(v) => v@,
                        _ => Seq::empty(),
                    },
                ),
            )
        } else {
            None
        },
    }
}

/// The positions of the names among the columns; `None` when one is
/// missing.
pub open spec fn positions_of(names: Seq<Seq<char>>, columns: Seq<Seq<char>>) -> Option<Seq<usize>> {
    if forall|i: int| 0 <= i < names.len() ==> position(columns, #[trigger] names[i]) is Some {
        Some(names.map_values(|n: Seq<char>| position(columns, n)->0 as usize))
    } else {
        None
    }
}

/// The key of a row's group: its values at the positions, joined with NUL.
pub open spec fn group_key(row: Seq<Seq<char>>, ps: Seq<usize>) -> Seq<char> {
    joined(ps.map_values(|p: usize| row[p as int]), "\0"@)
}

/// The keys of the groups, in the order their first rows come.
pub open spec fn group_keys(rows: Seq<Seq<Seq<char>>>, ps: Seq<usize>) -> Seq<Seq<char>>
    decreases rows.len(),
{
    if rows.len() == 0 {
        Seq::empty()
    } else {
        let ks = group_keys(rows.drop_last(), ps);
        let k = group_key(rows.last(), ps);
        if ks.contains(k) {
            ks
        } else {
            ks.push(k)
        }
    }
}

/// Rows whose group has the key `k`.
pub open spec fn key_is(ps: Seq<usize>, k: Seq<char>) -> spec_fn(Seq<Seq<char>>) -> bool {
    |r: Seq<Seq<char>>| group_key(r, ps) == k
}

/// The value of one item of the SELECT list for a group: a GROUP BY
/// column's piece of the key, or an aggregate over the group's rows.
pub open spec fn item_value<N: Fn(Numeric, &Vec<String>) -> String>(
    numeric: N,
    c: ColView,
    gcols: Seq<Seq<char>>,
    key: Seq<char>,
    grows: Seq<Seq<Seq<char>>>,
    columns: Seq<Seq<char>>,
) -> Option<Seq<char>> {
    match c {
        ColView::Column(col) => match position(gcols, col) {
            Some(i) => Some(piece(key, '\0', i)),
            None => None,
        },
        ColView::Aggregate(a) => agg_value(numeric, a, grows, columns),
    }
}

/// The output row of a group; `None` when an item fails (a column that is
/// not grouped, or an aggregate on an unknown column).
pub open spec fn group_row<N: Fn(Numeric, &Vec<String>) -> String>(
    numeric: N,
    cols: Seq<ColView>,
    gcols: Seq<Seq<char>>,
    key: Seq<char>,
    grows: Seq<Seq<Seq<char>>>,
    columns: Seq<Seq<char>>,
) -> Option<Seq<Seq<char>>>
    decreases cols.len(),
{
    if cols.len() == 0 {
        Some(Seq::empty())
    } else {
        match (
            group_row(numeric, cols.drop_last(), gcols, key, grows, columns),
            item_value(numeric, cols.last(), gcols, key, grows, columns),
        ) {
            (Some(a), Some(v)) => Some(a.push(v)),
            _ => None,
        }
    }
}

/// The output rows of the groups with the keys `keys`, those that fail
/// HAVING left out; `None` when a group's row or its HAVING fails.
pub open spec fn grouped_rows<O: Fn(&str, &str) -> Option<Order>, N: Fn(Numeric, &Vec<String>) -> String>(
    order: O,
    numeric: N,
    cols: Seq<ColView>,
    gcols: Seq<Seq<char>>,
    keys: Seq<Seq<char>>,
    rows: Seq<Seq<Seq<char>>>,
    ps: Seq<usize>,
    columns: Seq<Seq<char>>,
    having: Option<SqlExpr>,
) -> Option<Seq<Seq<Seq<char>>>>
    decreases keys.len(),
{
    if keys.len() == 0 {
        Some(Seq::empty())
    } else {
        match grouped_rows(order, numeric, cols, gcols, keys.drop_last(), rows, ps, columns, having) {
            None => None,
            Some(out) => {
                let k = keys.last();
                let g = rows.filter(key_is(ps, k));
                match group_row(numeric, cols, gcols, k, g, columns) {
                    None => None,
                    Some(row) => match having {
                        None => Some(out.push(row)),
                        Some(h) => match having_holds(order, numeric, h, g, columns) {
                            None => None,
                            Some(true) => Some(out.push(row)),
                            Some(false) => Some(out),
                        },
                    },
                }
            },
        }
    }
}

/// The text of the error one item of the SELECT list gives for a group,
/// where it gives one.
pub open spec fn group_item_error(c: ColView) -> Seq<char> {
    match c {
        ColView::Column(col) => "非聚合列 '"@ + col + "' 必须出现在 GROUP BY 中"@,
        ColView::Aggregate(_) => "列不存在"@,
    }
}

/// The text of the error the output row of a group gives, where it gives
/// one: that of its first item that fails.
pub open spec fn group_row_error<N: Fn(Numeric, &Vec<String>) -> String>(
    numeric: N,
    cols: Seq<ColView>,
    gcols: Seq<Seq<char>>,
    key: Seq<char>,
    grows: Seq<Seq<Seq<char>>>,
    columns: Seq<Seq<char>>,
) -> Seq<char>
    decreases cols.len(),
{
    if cols.len() == 0 {
        Seq::empty()
    } else if item_value(numeric, cols[0], gcols, key, grows, columns) is None {
        group_item_error(cols[0])
    } else {
        group_row_error(numeric, cols.drop_first(), gcols, key, grows, columns)
    }
}

proof fn lemma_group_row_error<N: Fn(Numeric, &Vec<String>) -> String>(
    numeric: N,
    cols: Seq<ColView>,
    gcols: Seq<Seq<char>>,
    key: Seq<char>,
    grows: Seq<Seq<Seq<char>>>,
    columns: Seq<Seq<char>>,
    i: int,
)
    requires
        0 <= i < cols.len(),
        forall|j: int| 0 <= j < i ==> item_value(numeric, #[trigger] cols[j], gcols, key, grows, columns) is Some,
        item_value(numeric, cols[i], gcols, key, grows, columns) is None,
    ensures
        group_row_error(numeric, cols, gcols, key, grows, columns) == group_item_error(cols[i]),
    decreases i,
{
    if i > 0 {
        assert(item_value(numeric, cols[0], gcols, key, grows, columns) is Some);
        let rest = cols.drop_first();
        assert forall|j: int| 0 <= j < i - 1 implies item_value(numeric, #[trigger] rest[j], gcols, key, grows, columns)
            is Some by {
            assert(rest[j] == cols[j + 1]);
        }
        lemma_group_row_error(numeric, rest, gcols, key, grows, columns, i - 1);
    }
}

/// The text of the error the groups stop at: that of the first group whose
/// row or HAVING fails.
pub open spec fn grouped_error<O: Fn(&str, &str) -> Option<Order>, N: Fn(Numeric, &Vec<String>) -> String>(
    order: O,
    numeric: N,
    cols: Seq<ColView>,
    gcols: Seq<Seq<char>>,
    keys: Seq<Seq<char>>,
    rows: Seq<Seq<Seq<char>>>,
    ps: Seq<usize>,
    columns: Seq<Seq<char>>,
    having: Option<SqlExpr>,
) -> Seq<char>
    decreases keys.len(),
{
    if keys.len() == 0 {
        Seq::empty()
    } else {
        let g = rows.filter(key_is(ps, keys[0]));
        if group_row(numeric, cols, gcols, keys[0], g, columns) is None {
            group_row_error(numeric, cols, gcols, keys[0], g, columns)
        } else if having matches Some(h) && having_holds(order, numeric, h, g, columns) is None {
            having_error(numeric, having->0, g, columns)
        } else {
            grouped_error(order, numeric, cols, gcols, keys.drop_first(), rows, ps, columns, having)
        }
    }
}

/// The text of the error grouping `rows` gives, where it gives one.
pub open spec fn groups_error<O: Fn(&str, &str) -> Option<Order>, N: Fn(Numeric, &Vec<String>) -> String>(
    order: O,
    numeric: N,
    cols: Seq<ColView>,
    gc: Seq<Seq<char>>,
    rows: Seq<Seq<Seq<char>>>,
    columns: Seq<Seq<char>>,
    having: Option<SqlExpr>,
) -> Seq<char> {
    match positions_of(gc, columns) {
        None => "GROUP BY 列不存在"@,
        Some(ps) => grouped_error(order, numeric, cols, gc, group_keys(rows, ps), rows, ps, columns, having),
    }
}

/// The text of the error an aggregate query gives before ORDER BY and
/// LIMIT, where it gives one.
pub open spec fn aggregate_error<O: Fn(&str, &str) -> Option<Order>, N: Fn(Numeric, &Vec<String>) -> String>(
    order: O,
    numeric: N,
    tv: TableView,
    conds: Seq<ConditionView>,
    proj: ProjView,
    g: GroupClause,
    having: Option<SqlExpr>,
) -> Seq<char> {
    match group_cols_of(g, tv.columns) {
        None => "GROUP BY 仅支持列名"@,
        Some(gc) => groups_error(
            order,
            numeric,
            proj.columns,
            gc,
            passing_rows(order, tv, conds).map_values(|r: (u64, Seq<Seq<char>>)| r.1),
            tv.columns,
            having,
        ),
    }
}

/// The rows of an aggregate query before ORDER BY and LIMIT: the rows that
/// pass the conditions, grouped; `None` on an error.
pub open spec fn aggregate_output<O: Fn(&str, &str) -> Option<Order>, N: Fn(Numeric, &Vec<String>) -> String>(
    order: O,
    numeric: N,
    tv: TableView,
    conds: Seq<ConditionView>,
    proj: ProjView,
    g: GroupClause,
    having: Option<SqlExpr>,
) -> Option<Seq<Seq<Seq<char>>>> {
    let rows = passing_rows(order, tv, conds).map_values(|r: (u64, Seq<Seq<char>>)| r.1);
    match group_cols_of(g, tv.columns) {
        None => None,
        Some(gc) => groups_output(order, numeric, proj.columns, gc, rows, tv.columns, having),
    }
}

/// The output rows of the groups of `rows` by the columns `gc`; `None` on
/// an error (a grouping column that does not exist, when there are rows).
pub open spec fn groups_output<O: Fn(&str, &str) -> Option<Order>, N: Fn(Numeric, &Vec<String>) -> String>(
    order: O,
    numeric: N,
    cols: Seq<ColView>,
    gc: Seq<Seq<char>>,
    rows: Seq<Seq<Seq<char>>>,
    columns: Seq<Seq<char>>,
    having: Option<SqlExpr>,
) -> Option<Seq<Seq<Seq<char>>>> {
    if rows.len() == 0 {
        Some(Seq::empty())
    } else {
        match positions_of(gc, columns) {
            None => None,
            Some(ps) => grouped_rows(order, numeric, cols, gc, group_keys(rows, ps), rows, ps, columns, having),
        }
    }
}

/// Reads the GROUP BY columns.
fn read_group_cols(group_by: &GroupClause, all_columns: &Vec<String>) -> (r: Result<Vec<String>, String>)
    ensures
        match r {
            Ok(v) => group_cols_of(*group_by, all_columns.deep_view()) == Some(v.deep_view()),
            Err(e) => group_cols_of(*group_by, all_columns.deep_view()) is None && e@ == "GROUP BY 仅支持列名"@,
        },
{
    match group_by {
        GroupClause::All => Ok(crate::text::copy_strings(all_columns)),
        GroupClause::Expressions(es) => {
            let mut v: Vec<String> = Vec::new();
            let mut i: usize = 0;
            while i < es.len()
                invariant
                    *group_by == GroupClause::Expressions(*es),
                    i <= es@.len(),
                    v@.len() == i,
                    forall|j: int| 0 <= j < i ==> (#[trigger] es@[j]) is Identifier,
                    forall|j: int| 0 <= j < i ==> #[trigger] v@[j]@ == match es@[j] {
                        SqlExpr::Identifier(x) => x@,
                        _ => Seq::<char>::empty(),
                    },
                decreases es@.len() - i,
            {
                match &es[i] {
                    SqlExpr::Identifier(x) => {
                        v.push(x.clone());
                    },
                    _ => {
                        proof {
                            assert(!(es@[i as int] is Identifier));
                        }
                        return Err("GROUP BY 仅支持列名".to_string());
                    },
                }
                i = i + 1;
            }
            proof {
                assert(v.deep_view() =~= es@.map_values(
                    |e: SqlExpr| match e {
                        SqlExpr::Identifier(x) => x@,
                        _ => Seq::<char>::empty(),
                    },
                ));
            }
            Ok(v)
        },
    }
}

/// The positions of the names among the columns.
fn find_positions(names: &Vec<String>, columns: &Vec<String>) -> (r: Option<Vec<usize>>)
    ensures
        match r {
            Some(v) => positions_of(names.deep_view(), columns.deep_view()) == Some(v@),
            None => positions_of(names.deep_view(), columns.deep_view()) is None,
        },
{
    let ghost nv = names.deep_view();
    let ghost cv = columns.deep_view();
    let mut v: Vec<usize> = Vec::new();
    let mut i: usize = 0;
    while i < names.len()
        invariant
            i <= names@.len(),
            nv == names.deep_view(),
            cv == columns.deep_view(),
            v@.len() == i,
            forall|j: int| 0 <= j < i ==> position(cv, #[trigger] nv[j]) is Some,
            forall|j: int| 0 <= j < i ==> #[trigger] v@[j] == position(cv, nv[j])->0 as usize,
        decreases names@.len() - i,
    {
        match find_position(columns, &names[i]) {
            Some(p) => {
                v.push(p);
            },
            None => {
                assert(position(cv, nv[i as int]) is None);
                return None;
            },
        }
        i = i + 1;
    }
    assert(v@ =~= nv.map_values(|n: Seq<char>| position(cv, n)->0 as usize));
    Some(v)
}

/// The key of a row's group.
fn group_key_of(row: &Vec<String>, ps: &Vec<usize>) -> (r: String)
    requires
        forall|k: int| 0 <= k < ps@.len() ==> #[trigger] ps@[k] < row@.len(),
    ensures
        r@ == group_key(row.deep_view(), ps@),
{
    let mut vals: Vec<String> = Vec::new();
    let mut i: usize = 0;
    while i < ps.len()
        invariant
            i <= ps@.len(),
            forall|k: int| 0 <= k < ps@.len() ==> #[trigger] ps@[k] < row@.len(),
            vals@.len() == i,
            forall|q: int| 0 <= q < i ==> #[trigger] vals@[q]@ == row.deep_view()[ps@[q] as int],
        decreases ps@.len() - i,
    {
        vals.push(row[ps[i]].clone());
        i = i + 1;
    }
    assert(vals.deep_view() =~= ps@.map_values(|p: usize| row.deep_view()[p as int]));
    join_strings(&vals, "\0")
}

/// The keys of the groups hold no key twice and hold every row's key.
proof fn lemma_group_keys(rows: Seq<Seq<Seq<char>>>, ps: Seq<usize>)
    ensures
        group_keys(rows, ps).no_duplicates(),
        forall|i: int| 0 <= i < rows.len() ==> group_keys(rows, ps).contains(#[trigger] group_key(rows[i], ps)),
    decreases rows.len(),
{
    if rows.len() > 0 {
        let init = rows.drop_last();
        lemma_group_keys(init, ps);
        assert forall|i: int| 0 <= i < rows.len() implies group_keys(rows, ps).contains(#[trigger] group_key(rows[i], ps)) by {
            if i < rows.len() - 1 {
                assert(rows[i] == init[i]);
                assert(group_keys(init, ps).contains(group_key(init[i], ps)));
            } else {
                let ks = group_keys(init, ps);
                let k = group_key(rows.last(), ps);
                if !ks.contains(k) {
                    assert(ks.push(k)[ks.len() as int] == k);
                }
            }
        }
    }
}

/// The indices of rows, read back as the rows.
pub open spec fn idx_rows(ix: Seq<usize>, rows: Seq<Seq<Seq<char>>>) -> Seq<Seq<Seq<char>>> {
    ix.map_values(|x: usize| rows[x as int])
}

/// Groups the rows by their keys: the keys in the order of their first
/// rows, and for each key the indices of its rows in order.
fn build_groups(rows: &Vec<&Vec<String>>, ps: &Vec<usize>) -> (r: (Vec<String>, Vec<Vec<usize>>))
    requires
        forall|i: int, k: int| 0 <= i < rows@.len() && 0 <= k < ps@.len() ==> #[trigger] ps@[k] < (#[trigger] rows@[i])@.len(),
    ensures
        r.0.deep_view() == group_keys(refs_deep(rows@), ps@),
        r.1@.len() == r.0@.len(),
        forall|q: int, k: int| 0 <= q < r.1@.len() && 0 <= k < r.1@[q]@.len() ==> #[trigger] r.1@[q]@[k] < rows@.len(),
        forall|q: int| 0 <= q < r.1@.len() ==> #[trigger] idx_rows(r.1@[q]@, refs_deep(rows@)) == refs_deep(rows@).filter(
            key_is(ps@, r.0@[q]@),
        ),
{
    let ghost rv = refs_deep(rows@);
    let mut keys: Vec<String> = Vec::new();
    let mut groups: Vec<Vec<usize>> = Vec::new();
    let mut j: usize = 0;
    proof {
        assert(rv.take(0) =~= Seq::<Seq<Seq<char>>>::empty());
        assert(keys.deep_view() =~= Seq::<Seq<char>>::empty());
    }
    while j < rows.len()
        invariant
            j <= rows@.len(),
            rv == refs_deep(rows@),
            forall|i: int, k: int| 0 <= i < rows@.len() && 0 <= k < ps@.len() ==> #[trigger] ps@[k] < (#[trigger] rows@[i])@.len(),
            keys.deep_view() == group_keys(rv.take(j as int), ps@),
            groups@.len() == keys@.len(),
            forall|q: int, k: int| 0 <= q < groups@.len() && 0 <= k < groups@[q]@.len() ==> #[trigger] groups@[q]@[k] < j,
            forall|q: int| 0 <= q < groups@.len() ==> #[trigger] idx_rows(groups@[q]@, rv) == rv.take(j as int).filter(
                key_is(ps@, keys@[q]@),
            ),
        decreases rows@.len() - j,
    {
        let ghost pre = rv.take(j as int);
        let ghost kv = keys.deep_view();
        proof {
            assert(rv.take(j + 1).drop_last() =~= pre);
            assert(rv.take(j + 1).last() == rv[j as int]);
            lemma_group_keys(pre, ps@);
        }
        let k = group_key_of(rows[j], ps);
        proof {
            assert(k@ == group_key(rv[j as int], ps@));
        }
        let mut q: usize = 0;
        while q < keys.len() && keys[q] != k
            invariant
                q <= keys@.len(),
                forall|x: int| 0 <= x < q ==> #[trigger] keys@[x]@ != k@,
            decreases keys@.len() - q,
        {
            q = q + 1;
        }
        let ghost before_groups = groups@;
        if q < keys.len() {
            proof {
                assert(kv[q as int] == k@);
                assert(kv.contains(k@));
            }
            let mut g = groups[q].clone();
            proof {
                assert(g@ == groups@[q as int]@);
            }
            g.push(j);
            groups.set(q, g);
            proof {
                assert forall|x: int| 0 <= x < groups@.len() implies #[trigger] idx_rows(groups@[x]@, rv) == rv.take(j + 1).filter(
                    key_is(ps@, keys@[x]@),
                ) by {
                    lemma_filter_take_step(rv, key_is(ps@, keys@[x]@), j as int);
                    if x == q {
                        assert(idx_rows(groups@[x]@, rv) =~= idx_rows(before_groups[x]@, rv).push(rv[j as int]));
                    } else {
                        assert(kv[x] != kv[q as int]);
                        assert(groups@[x] == before_groups[x]);
                    }
                }
            }
        } else {
            proof {
                assert(!kv.contains(k@)) by {
                    if kv.contains(k@) {
                        let x = choose|x: int| 0 <= x < kv.len() && kv[x] == k@;
                        assert(keys@[x]@ == k@);
                    }
                }
            }
            let ghost kk = k@;
            keys.push(k);
            groups.push(vec![j]);
            proof {
                assert(keys.deep_view() =~= kv.push(kk));
                assert forall|x: int| 0 <= x < groups@.len() implies #[trigger] idx_rows(groups@[x]@, rv) == rv.take(j + 1).filter(
                    key_is(ps@, keys@[x]@),
                ) by {
                    lemma_filter_take_step(rv, key_is(ps@, keys@[x]@), j as int);
                    if x == kv.len() {
                        assert(keys@[x]@ == kk);
                        assert(pre.filter(key_is(ps@, kk)) =~= Seq::<Seq<Seq<char>>>::empty()) by {
                            lemma_filter_members(pre, key_is(ps@, kk));
                            if pre.filter(key_is(ps@, kk)).len() > 0 {
                                let e = pre.filter(key_is(ps@, kk))[0];
                                assert(key_is(ps@, kk)(e));
                                assert(pre.contains(e));
                                let w = choose|w: int| 0 <= w < pre.len() && pre[w] == e;
                                assert(kv.contains(group_key(pre[w], ps@)));
                            }
                        }
                        assert(idx_rows(groups@[x]@, rv) =~= seq![rv[j as int]]);
                    } else {
                        assert(keys@[x]@ == kv[x]);
                        assert(kv[x] != kk);
                        assert(groups@[x] == before_groups[x]);
                    }
                }
            }
        }
        j = j + 1;
    }
    proof {
        assert(rv.take(rows@.len() as int) =~= rv);
    }
    (keys, groups)
}

/// Builds the output row of one group.
fn build_group_row<N: Fn(Numeric, &Vec<String>) -> String>(
    cols: &Vec<ColumnExpr>,
    gcols: &Vec<String>,
    key: &String,
    grows: &Vec<&Vec<String>>,
    columns: &Vec<String>,
    numeric: &N,
) -> (r: Result<Vec<String>, String>)
    requires
        is_numeric_fn(*numeric),
        forall|i: int| 0 <= i < grows@.len() ==> (#[trigger] grows@[i])@.len() == columns@.len(),
    ensures
        match r {
            Ok(v) => group_row(*numeric, col_views(cols@), gcols.deep_view(), key@, refs_deep(grows@), columns.deep_view())
                == Some(v.deep_view()),
            Err(e) => group_row(*numeric, col_views(cols@), gcols.deep_view(), key@, refs_deep(grows@), columns.deep_view())
                is None && e@ == group_row_error(
                *numeric,
                col_views(cols@),
                gcols.deep_view(),
                key@,
                refs_deep(grows@),
                columns.deep_view(),
            ),
        },
{
    let ghost cv = col_views(cols@);
    let ghost gv = refs_deep(grows@);
    let mut out: Vec<String> = Vec::new();
    let mut i: usize = 0;
    proof {
        assert(cv.take(0) =~= Seq::<ColView>::empty());
        assert(out.deep_view() =~= Seq::<Seq<char>>::empty());
    }
    while i < cols.len()
        invariant
            i <= cols@.len(),
            cv == col_views(cols@),
            gv == refs_deep(grows@),
            is_numeric_fn(*numeric),
            forall|j: int| 0 <= j < grows@.len() ==> (#[trigger] grows@[j])@.len() == columns@.len(),
            group_row(*numeric, cv.take(i as int), gcols.deep_view(), key@, gv, columns.deep_view()) == Some(out.deep_view()),
            forall|j: int| 0 <= j < i ==> item_value(*numeric, #[trigger] cv[j], gcols.deep_view(), key@, gv, columns.deep_view())
                is Some,
        decreases cols@.len() - i,
    {
        proof {
            assert(cv.take(i + 1).drop_last() =~= cv.take(i as int));
            assert(cv.take(i + 1).last() == cols@[i as int]@);
        }
        let v = match &cols[i] {
            ColumnExpr::Column(col) => match find_position(gcols, col) {
                Some(ix) => split_nth(key.as_str(), '\0', ix),
                None => {
                    proof {
                        lemma_group_row_stuck(*numeric, cv, gcols.deep_view(), key@, gv, columns.deep_view(), i as int);
                        lemma_group_row_error(*numeric, cv, gcols.deep_view(), key@, gv, columns.deep_view(), i as int);
                    }
                    return Err(crate::text::concat_strings(
                        &crate::text::concat_strings("非聚合列 '", col.as_str()),
                        "' 必须出现在 GROUP BY 中",
                    ));
                },
            },
            ColumnExpr::Aggregate(a) => match compute_agg(a, grows, columns, numeric) {
                Ok(x) => x,
                Err(e) => {
                    proof {
                        lemma_group_row_stuck(*numeric, cv, gcols.deep_view(), key@, gv, columns.deep_view(), i as int);
                        lemma_group_row_error(*numeric, cv, gcols.deep_view(), key@, gv, columns.deep_view(), i as int);
                    }
                    return Err(e);
                },
            },
        };
        let ghost before = out.deep_view();
        out.push(v);
        proof {
            assert(out.deep_view() =~= before.push(v@));
        }
        i = i + 1;
    }
    proof {
        assert(cv.take(cols@.len() as int) =~= cv);
    }
    Ok(out)
}

/// Once an item of the SELECT list fails for a group, the whole row does.
proof fn lemma_group_row_stuck<N: Fn(Numeric, &Vec<String>) -> String>(
    numeric: N,
    cols: Seq<ColView>,
    gcols: Seq<Seq<char>>,
    key: Seq<char>,
    grows: Seq<Seq<Seq<char>>>,
    columns: Seq<Seq<char>>,
    i: int,
)
    requires
        0 <= i < cols.len(),
        item_value(numeric, cols[i], gcols, key, grows, columns) is None,
    ensures
        group_row(numeric, cols, gcols, key, grows, columns) is None,
    decreases cols.len() - i,
{
    if i + 1 < cols.len() {
        assert(cols.drop_last()[i] == cols[i]);
        lemma_group_row_stuck(numeric, cols.drop_last(), gcols, key, grows, columns, i);
    }
}

/// Once a group fails, all groups do.
proof fn lemma_grouped_stuck<O: Fn(&str, &str) -> Option<Order>, N: Fn(Numeric, &Vec<String>) -> String>(
    order: O,
    numeric: N,
    cols: Seq<ColView>,
    gcols: Seq<Seq<char>>,
    keys: Seq<Seq<char>>,
    rows: Seq<Seq<Seq<char>>>,
    ps: Seq<usize>,
    columns: Seq<Seq<char>>,
    having: Option<SqlExpr>,
    k: int,
)
    requires
        0 <= k <= keys.len(),
        grouped_rows(order, numeric, cols, gcols, keys.take(k), rows, ps, columns, having) is None,
    ensures
        grouped_rows(order, numeric, cols, gcols, keys, rows, ps, columns, having) is None,
    decreases keys.len() - k,
{
    if k < keys.len() {
        assert(keys.take(k + 1).drop_last() =~= keys.take(k));
        lemma_grouped_stuck(order, numeric, cols, gcols, keys, rows, ps, columns, having, k + 1);
    } else {
        assert(keys.take(k) =~= keys);
    }
}

/// Builds the output rows of the groups of `rows`.
fn build_output<O: Fn(&str, &str) -> Option<Order>, N: Fn(Numeric, &Vec<String>) -> String>(
    rows: &Vec<&Vec<String>>,
    gcols: &Vec<String>,
    columns: &Vec<String>,
    proj: &ProjectionInfo,
    having: &Option<SqlExpr>,
    order: &O,
    numeric: &N,
) -> (r: Result<Vec<Vec<String>>, String>)
    requires
        is_value_order(*order),
        is_numeric_fn(*numeric),
        forall|i: int| 0 <= i < rows@.len() ==> (#[trigger] rows@[i])@.len() == columns@.len(),
    ensures
        match r {
            Ok(v) => groups_output(*order, *numeric, proj@.columns, gcols.deep_view(), refs_deep(rows@), columns.deep_view(), *having)
                == Some(rows_deep(v@)),
            Err(e) => groups_output(*order, *numeric, proj@.columns, gcols.deep_view(), refs_deep(rows@), columns.deep_view(), *having)
                is None && e@ == groups_error(*order, *numeric, proj@.columns, gcols.deep_view(), refs_deep(rows@), columns.deep_view(), *having),
        },
{
    let ghost rv = refs_deep(rows@);
    let mut out: Vec<Vec<String>> = Vec::new();
    if rows.len() == 0 {
        proof {
            assert(rows_deep(out@) =~= Seq::<Seq<Seq<char>>>::empty());
        }
        return Ok(out);
    }
    let ps = match find_positions(gcols, columns) {
        Some(ps) => ps,
        None => {
            return Err("GROUP BY 列不存在".to_string());
        },
    };
    proof {
        assert forall|i: int, k: int| 0 <= i < rows@.len() && 0 <= k < ps@.len() implies #[trigger] ps@[k] < (#[trigger] rows@[i])@.len() by {
            let n = gcols.deep_view()[k];
            assert(position(columns.deep_view(), n) is Some);
            crate::text::lemma_position_facts(columns.deep_view(), n);
        }
    }
    let (keys, groups) = build_groups(rows, &ps);
    let ghost kv = keys.deep_view();
    let ghost cv = proj@.columns;
    let ghost gc = gcols.deep_view();
    let ghost cs = columns.deep_view();
    let mut q: usize = 0;
    proof {
        assert(kv.skip(0) =~= kv);
        assert(kv.take(0) =~= Seq::<Seq<char>>::empty());
        assert(rows_deep(out@) =~= Seq::<Seq<Seq<char>>>::empty());
    }
    while q < keys.len()
        invariant
            q <= keys@.len(),
            rv == refs_deep(rows@),
            kv == keys.deep_view(),
            kv == group_keys(rv, ps@),
            rows@.len() > 0,
            positions_of(gc, cs) == Some(ps@),
            cv == proj@.columns,
            gc == gcols.deep_view(),
            cs == columns.deep_view(),
            is_value_order(*order),
            is_numeric_fn(*numeric),
            forall|i: int| 0 <= i < rows@.len() ==> (#[trigger] rows@[i])@.len() == columns@.len(),
            groups@.len() == keys@.len(),
            forall|x: int, k: int| 0 <= x < groups@.len() && 0 <= k < groups@[x]@.len() ==> #[trigger] groups@[x]@[k] < rows@.len(),
            forall|x: int| 0 <= x < groups@.len() ==> #[trigger] idx_rows(groups@[x]@, rv) == rv.filter(key_is(ps@, keys@[x]@)),
            grouped_rows(*order, *numeric, cv, gc, kv.take(q as int), rv, ps@, cs, *having) == Some(rows_deep(out@)),
            grouped_error(*order, *numeric, cv, gc, kv, rv, ps@, cs, *having) == grouped_error(
                *order,
                *numeric,
                cv,
                gc,
                kv.skip(q as int),
                rv,
                ps@,
                cs,
                *having,
            ),
        decreases keys@.len() - q,
    {
        let ghost g = rv.filter(key_is(ps@, kv[q as int]));
        proof {
            assert(kv.skip(q as int)[0] == kv[q as int]);
            assert(kv.skip(q as int).drop_first() =~= kv.skip(q + 1));
        }
        let mut grows: Vec<&Vec<String>> = Vec::new();
        let mut k: usize = 0;
        while k < groups[q].len()
            invariant
                q < groups@.len(),
                k <= groups@[q as int]@.len(),
                forall|x: int, y: int| 0 <= x < groups@.len() && 0 <= y < groups@[x]@.len() ==> #[trigger] groups@[x]@[y] < rows@.len(),
                grows@.len() == k,
                forall|y: int| 0 <= y < k ==> #[trigger] grows@[y] == rows@[groups@[q as int]@[y] as int],
            decreases groups@[q as int]@.len() - k,
        {
            grows.push(rows[groups[q][k]]);
            k = k + 1;
        }
        proof {
            assert(refs_deep(grows@) =~= idx_rows(groups@[q as int]@, rv));
            assert(refs_deep(grows@) == g);
            assert(kv.take(q + 1).drop_last() =~= kv.take(q as int));
            assert(kv.take(q + 1).last() == kv[q as int]);
            assert(keys@[q as int]@ == kv[q as int]);
            assert forall|i: int| 0 <= i < grows@.len() implies (#[trigger] grows@[i])@.len() == columns@.len() by {
                assert(grows@[i] == rows@[groups@[q as int]@[i] as int]);
            }
        }
        let row = match build_group_row(&proj.columns, gcols, &keys[q], &grows, columns, numeric) {
            Ok(row) => row,
            Err(e) => {
                proof {
                    assert(proj@.columns == col_views(proj.columns@));
                    assert(group_row(*numeric, cv, gc, kv[q as int], g, cs) is None);
                    assert(grouped_rows(*order, *numeric, cv, gc, kv.take(q + 1), rv, ps@, cs, *having) is None);
                    lemma_grouped_stuck(*order, *numeric, cv, gc, kv, rv, ps@, cs, *having, q + 1);
                }
                return Err(e);
            },
        };
        let keep = match having {
            Some(h) => match evaluate_having(h, &grows, columns, order, numeric) {
                Ok(b) => b,
                Err(e) => {
                    proof {
                        assert(group_row(*numeric, cv, gc, kv[q as int], g, cs) == Some(row.deep_view()));
                        assert(having_holds(*order, *numeric, *h, g, cs) is None);
                        assert(grouped_rows(*order, *numeric, cv, gc, kv.take(q + 1), rv, ps@, cs, *having) is None);
                        lemma_grouped_stuck(*order, *numeric, cv, gc, kv, rv, ps@, cs, *having, q + 1);
                    }
                    return Err(e);
                },
            },
            None => true,
        };
        if keep {
            let ghost before = rows_deep(out@);
            let ghost rd = row.deep_view();
            out.push(row);
            proof {
                assert(rows_deep(out@) =~= before.push(rd));
            }
        }
        q = q + 1;
    }
    proof {
        assert(kv.take(keys@.len() as int) =~= kv);
    }
    Ok(out)
}

/// Runs an aggregate query on one table: the rows that pass the conditions
/// are grouped by the GROUP BY columns (groups come in the order of their
/// first rows), each group gives one row of its grouped columns and
/// aggregates, HAVING drops groups, then ORDER BY and LIMIT apply. A
/// missing table, a GROUP BY item that is no column name, a grouped column
/// that does not exist, a listed column that is not grouped, and a sort of
/// `*` rows by a position they lack are errors.
pub fn execute_aggregate<O: Fn(&str, &str) -> Option<Order>, N: Fn(Numeric, &Vec<String>) -> String>(
    db: &Database,
    table_ref: TableRef,
    conditions: &Vec<Condition>,
    proj: &ProjectionInfo,
    group_by: &GroupClause,
    having: &Option<SqlExpr>,
    order_by: &Option<OrderClause>,
    limit: &Option<LimitSpec>,
    order: &O,
    numeric: &N,
) -> (r: Result<ExecutionResult, String>)
    requires
        db.wf(),
        is_value_order(*order),
        is_antisymmetric(*order),
        is_numeric_fn(*numeric),
    ensures
        !db@.tables.contains_key(table_ref.name@) ==> (r matches Err(e) && e@ == "Table not found"@),
        db@.tables.contains_key(table_ref.name@) ==> {
            let tv = db@.tables[table_ref.name@];
            let out = aggregate_output(*order, *numeric, tv, conditions_view(conditions@), proj@, *group_by, *having);
            &&& (r is Ok <==> (out is Some && order_spec(*order_by, proj@, tv.columns) is Some && limit_spec(*limit) is Some
                && sort_fits(proj@, tv.columns, *order_by, out->0)))
            &&& (r matches Ok(res) ==> res matches ExecutionResult::Select { rows, scanned, used_index } && !used_index
                && scanned == tv.rows.len() && ordered_limited(
                *order,
                order_spec(*order_by, proj@, tv.columns)->0,
                limit_spec(*limit)->0,
                out->0,
                rows_deep(rows@),
            ))
            &&& out is None ==> (r matches Err(e) && e@ == aggregate_error(
                *order,
                *numeric,
                tv,
                conditions_view(conditions@),
                proj@,
                *group_by,
                *having,
            ))
            &&& (out is Some && r is Err) ==> (r matches Err(e) && e@ == if !sort_fits(proj@, tv.columns, *order_by, out->0) {
                "ORDER BY 列超出结果行"@
            } else {
                order_limit_error(*order_by, *limit)
            })
        },
{
    let i = match db.find_table(&table_ref.name) {
        Some(i) => i,
        None => {
            return Err("Table not found".to_string());
        },
    };
    let table = &db.tables[i].table;
    assert(table.wf());
    let ghost tv = table@;
    let all_columns = &table.columns;
    let (scan, scanned) = match table.scan_with_condition(conditions, order) {
        Ok(x) => x,
        Err(e) => {
            return Err(e);
        },
    };
    let ghost pr = passing_rows(*order, tv, conditions_view(conditions@));
    let mut filtered: Vec<&Vec<String>> = Vec::new();
    let mut j: usize = 0;
    while j < scan.len()
        invariant
            j <= scan@.len(),
            scan@.map_values(|q: (u64, &Vec<String>)| (q.0, q.1.deep_view())) == pr,
            filtered@.len() == j,
            forall|y: int| 0 <= y < j ==> #[trigger] filtered@[y] == scan@[y].1,
        decreases scan@.len() - j,
    {
        filtered.push(scan[j].1);
        j = j + 1;
    }
    proof {
        assert(refs_deep(filtered@) =~= pr.map_values(|r: (u64, Seq<Seq<char>>)| r.1));
        crate::seqs::lemma_filter_members(tv.rows, crate::table_scan::passes(*order, tv.columns, conditions_view(conditions@)));
        assert forall|y: int| 0 <= y < filtered@.len() implies (#[trigger] filtered@[y])@.len() == all_columns@.len() by {
            assert(pr[y] == (scan@[y].0, scan@[y].1.deep_view()));
            assert(tv.rows.contains(pr[y]));
            let w = choose|w: int| 0 <= w < tv.rows.len() && tv.rows[w] == pr[y];
            assert(tv.rows[w].1.len() == tv.columns.len());
        }
    }
    let group_cols = read_group_cols(group_by, all_columns)?;
    let mut output = build_output(&filtered, &group_cols, all_columns, proj, having, order, numeric)?;
    if !check_sort_fits(proj, all_columns, order_by, &output) {
        return Err("ORDER BY 列超出结果行".to_string());
    }
    apply_order_limit(&mut output, proj, all_columns, order_by, limit, order)?;
    Ok(ExecutionResult::Select { rows: output, scanned, used_index: false })
}

} // verus!
