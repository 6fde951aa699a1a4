//! What queries and writes mean, stated over the value order: how a join
//! condition and a HAVING comparison read their operator, which way ORDER BY
//! sorts, and what a DELETE or an UPDATE without WHERE does to a table.
use vstd::prelude::*;
use crate::join::{cell, join_cond_holds, join_passes};
use crate::condition::{condition_outcome, ConditionView};
use crate::text::actual_column;
use crate::aggregate::{having_holds, having_value};
use crate::sql::{BinOp, DeleteStmt, OrderClause, SqlExpr, UpdateStmt};
use crate::database::write_result;
use crate::outcome::ExecutionResult;
use crate::records::{delete_record_of, delete_table_of, set_value_of, update_record_of};
use crate::table::TableView;
use crate::text::position;
use crate::wal::applied;
use crate::projection::ProjView;
use crate::sorting::{is_sort_perm, key_pos, limited, order_spec, ordered_limited, row_order, sort_key, sorted_as, stably_sorted};
use crate::value::Numeric;
use crate::value::{op_accepts, order_of, Order};

verus! {

/// A join condition reads its operator as a single-table WHERE does: with
/// `l` the value its left name reads and `v` its right side (a value read
/// the same way, or its literal), `=`, `!=`, `<`, `<=`, `>` and `>=` hold
/// exactly when the value order compares `l` to `v` as equal, not equal,
/// less, less or equal, greater, and greater or equal.
pub proof fn lemma_join_condition_operators<O: Fn(&str, &str) -> Option<Order>>(
    order: O,
    rows: Seq<Seq<Seq<char>>>,
    info: Seq<(Option<Seq<char>>, Seq<Seq<char>>)>,
    c: ConditionView,
    l: Seq<char>,
    v: Seq<char>,
)
    requires
        cell(rows, info, c.col) == Some(l),
        if c.rhs_is_column {
            cell(rows, info, c.val) == Some(v)
        } else {
            c.val == v
        },
    ensures
        c.op == "="@ ==> join_cond_holds(order, rows, info, c) == Some(order_of(order, l, v) == Some(Order::Equal)),
        c.op == "!="@ ==> join_cond_holds(order, rows, info, c) == Some(order_of(order, l, v) != Some(Order::Equal)),
        c.op == "<"@ ==> join_cond_holds(order, rows, info, c) == Some(order_of(order, l, v) == Some(Order::Less)),
        c.op == "<="@ ==> join_cond_holds(order, rows, info, c) == Some(
            order_of(order, l, v) == Some(Order::Less) || order_of(order, l, v) == Some(Order::Equal),
        ),
        c.op == ">"@ ==> join_cond_holds(order, rows, info, c) == Some(order_of(order, l, v) == Some(Order::Greater)),
        c.op == ">="@ ==> join_cond_holds(order, rows, info, c) == Some(
            order_of(order, l, v) == Some(Order::Greater) || order_of(order, l, v) == Some(Order::Equal),
        ),
        (c.op == "="@ || c.op == "!="@ || c.op == "<"@ || c.op == "<="@ || c.op == ">"@ || c.op == ">="@)
            ==> (order_of(order, l, v) matches Some(o) ==> join_cond_holds(order, rows, info, c) == Some(
            op_accepts(c.op, o),
        )),
{
    reveal_strlit("=");
    reveal_strlit("!=");
    reveal_strlit("<");
    reveal_strlit("<=");
    reveal_strlit(">");
    reveal_strlit(">=");
    assert("="@.len() == 1 && "<"@.len() == 1 && ">"@.len() == 1);
    assert("!="@.len() == 2 && "<="@.len() == 2 && ">="@.len() == 2);
    assert("="@[0] == '=' && "<"@[0] == '<' && ">"@[0] == '>');
    assert("!="@[0] == '!' && "<="@[0] == '<' && ">="@[0] == '>');
}

/// A combination passes the join conditions exactly when every one of them
/// holds on it (where none of them fails to be read).
pub proof fn lemma_join_passes_all<O: Fn(&str, &str) -> Option<Order>>(
    order: O,
    rows: Seq<Seq<Seq<char>>>,
    info: Seq<(Option<Seq<char>>, Seq<Seq<char>>)>,
    conds: Seq<ConditionView>,
)
    ensures
        join_passes(order, rows, info, conds) == Some(true) <==> forall|i: int|
            0 <= i < conds.len() ==> join_cond_holds(order, rows, info, #[trigger] conds[i]) == Some(true),
    decreases conds.len(),
{
    if conds.len() > 0 {
        let rest = conds.drop_first();
        lemma_join_passes_all(order, rows, info, rest);
        if forall|i: int| 0 <= i < conds.len() ==> join_cond_holds(order, rows, info, #[trigger] conds[i]) == Some(true) {
            assert(join_cond_holds(order, rows, info, conds[0]) == Some(true));
            assert forall|i: int| 0 <= i < rest.len() implies join_cond_holds(order, rows, info, #[trigger] rest[i])
                == Some(true) by {
                assert(rest[i] == conds[i + 1]);
            }
        }
        if join_passes(order, rows, info, conds) == Some(true) {
            assert forall|i: int| 0 <= i < conds.len() implies join_cond_holds(order, rows, info, #[trigger] conds[i])
                == Some(true) by {
                if i > 0 {
                    assert(conds[i] == rest[i - 1]);
                }
            }
        }
    }
}

/// HAVING compares the values of its two sides by the value order: with `a`
/// and `b` the values of the left and right sides over a group, `l = r`,
/// `l < r` and `l > r` hold exactly when `a` compares to `b` as equal, less
/// and greater; no other operator holds.
pub proof fn lemma_having_comparison<N: Fn(Numeric, &Vec<String>) -> String, O: Fn(&str, &str) -> Option<Order>>(
    order: O,
    numeric: N,
    l: SqlExpr,
    op: BinOp,
    r: SqlExpr,
    rows: Seq<Seq<Seq<char>>>,
    columns: Seq<Seq<char>>,
    a: Seq<char>,
    b: Seq<char>,
)
    requires
        having_value(numeric, l, rows, columns) == Some(a),
        having_value(numeric, r, rows, columns) == Some(b),
    ensures
        having_holds(order, numeric, SqlExpr::BinaryOp(Box::new(l), op, Box::new(r)), rows, columns) == Some(
            (op == BinOp::Eq && order_of(order, a, b) == Some(Order::Equal)) || (op == BinOp::Lt && order_of(order, a, b)
                == Some(Order::Less)) || (op == BinOp::Gt && order_of(order, a, b) == Some(Order::Greater)),
        ),
{
}

/// Sorted rows cut to a limit keep each row no greater than the next.
proof fn lemma_limited_adjacent<O: Fn(&str, &str) -> Option<Order>>(
    order: O,
    kp: Option<usize>,
    asc: bool,
    before: Seq<Seq<Seq<char>>>,
    sorted: Seq<Seq<Seq<char>>>,
    perm: Seq<int>,
    lim: Option<usize>,
    after: Seq<Seq<Seq<char>>>,
)
    requires
        is_sort_perm(order, kp, asc, before, sorted, perm),
        after == limited(lim, sorted),
    ensures
        forall|i: int| 0 <= i < after.len() - 1 ==> row_order(order, kp, asc, #[trigger] after[i], after[i + 1])
            != Order::Greater,
{
    assert forall|i: int| 0 <= i < after.len() - 1 implies row_order(order, kp, asc, #[trigger] after[i], after[i + 1])
        != Order::Greater by {
        assert(after[i] == sorted[i]);
        assert(after[i + 1] == sorted[i + 1]);
    }
}

/// Rows in order by `row_order` have keys in order by the value order:
/// ascending, none greater than the next; descending, none less.
proof fn lemma_row_order_keys<O: Fn(&str, &str) -> Option<Order>>(
    order: O,
    kp: Option<usize>,
    asc: bool,
    rows: Seq<Seq<Seq<char>>>,
)
    requires
        forall|i: int| 0 <= i < rows.len() - 1 ==> row_order(order, kp, asc, #[trigger] rows[i], rows[i + 1])
            != Order::Greater,
    ensures
        asc ==> forall|i: int|
            0 <= i < rows.len() - 1 ==> order_of(order, sort_key(#[trigger] rows[i], kp), sort_key(rows[i + 1], kp))
                != Some(Order::Greater),
        !asc ==> forall|i: int|
            0 <= i < rows.len() - 1 ==> order_of(order, sort_key(#[trigger] rows[i], kp), sort_key(rows[i + 1], kp))
                != Some(Order::Less),
{
    reveal(row_order);
    assert forall|i: int| 0 <= i < rows.len() - 1 implies order_of(
        order,
        sort_key(#[trigger] rows[i], kp),
        sort_key(rows[i + 1], kp),
    ) != Some(if asc {
        Order::Greater
    } else {
        Order::Less
    }) by {
        assert(row_order(order, kp, asc, rows[i], rows[i + 1]) != Order::Greater);
    }
}

/// ORDER BY one column sorts the way it says: after ordering (and any
/// LIMIT), no row's key compares greater than the next row's key when the
/// item says ASC or gives no direction, and none compares less when it says
/// DESC.
pub proof fn lemma_order_by_direction<O: Fn(&str, &str) -> Option<Order>>(
    order: O,
    order_by: Option<OrderClause>,
    proj: ProjView,
    columns: Seq<Seq<char>>,
    lim: Option<usize>,
    before: Seq<Seq<Seq<char>>>,
    after: Seq<Seq<Seq<char>>>,
)
    requires
        order_by matches Some(OrderClause::Expressions(es)) && es@.len() == 1 && es@[0].expr is Identifier,
        ordered_limited(order, order_spec(order_by, proj, columns)->0, lim, before, after),
    ensures
        ({
            let item = order_by->Some_0->Expressions_0@[0];
            let kp = key_pos(proj, columns, item.expr->Identifier_0@);
            &&& item.asc != Some(false) ==> forall|i: int|
                0 <= i < after.len() - 1 ==> order_of(order, sort_key(#[trigger] after[i], kp), sort_key(after[i + 1], kp))
                    != Some(Order::Greater)
            &&& item.asc == Some(false) ==> forall|i: int|
                0 <= i < after.len() - 1 ==> order_of(order, sort_key(#[trigger] after[i], kp), sort_key(after[i + 1], kp))
                    != Some(Order::Less)
        }),
{
    let item = order_by->Some_0->Expressions_0@[0];
    let kp = key_pos(proj, columns, item.expr->Identifier_0@);
    let asc = match item.asc {
        Some(b) => b,
        None => true,
    };
    assert(order_spec(order_by, proj, columns) == Some(Some((kp, asc))));
    let sorted = choose|sorted: Seq<Seq<Seq<char>>>| #[trigger] sorted_as(order, Some((kp, asc)), before, sorted) && after
        == limited(lim, sorted);
    assert(stably_sorted(order, kp, asc, before, sorted));
    let perm = choose|perm: Seq<int>| is_sort_perm(order, kp, asc, before, sorted, perm);
    lemma_limited_adjacent(order, kp, asc, before, sorted, perm, lim, after);
    lemma_row_order_keys(order, kp, asc, after);
}

/// Keeping the elements that all pass keeps them all.
proof fn lemma_filter_keeps_all<A>(s: Seq<A>, f: spec_fn(A) -> bool)
    requires
        forall|i: int| 0 <= i < s.len() ==> f(#[trigger] s[i]),
    ensures
        s.filter(f) == s,
    decreases s.len(),
{
    reveal(Seq::filter);
    if s.len() > 0 {
        let d = s.drop_last();
        assert forall|i: int| 0 <= i < d.len() implies f(#[trigger] d[i]) by {
            assert(d[i] == s[i]);
        }
        lemma_filter_keeps_all(d, f);
        assert(f(s.last()));
        assert(d.push(s.last()) =~= s);
    } else {
        assert(s.filter(f) =~= s);
    }
}

/// Keeping the elements that pass, when none does, keeps nothing.
proof fn lemma_filter_keeps_none<A>(s: Seq<A>, f: spec_fn(A) -> bool)
    requires
        forall|i: int| 0 <= i < s.len() ==> !f(#[trigger] s[i]),
    ensures
        s.filter(f).len() == 0,
    decreases s.len(),
{
    reveal(Seq::filter);
    if s.len() > 0 {
        let d = s.drop_last();
        assert forall|i: int| 0 <= i < d.len() implies !f(#[trigger] d[i]) by {
            assert(d[i] == s[i]);
        }
        lemma_filter_keeps_none(d, f);
        assert(!f(s.last()));
    }
}

/// A DELETE without WHERE empties its table: applied (directly or when its
/// log record is replayed) it leaves the table with its columns and no
/// rows, and it reports as many deleted rows as the table held.
pub proof fn lemma_delete_without_where_empties<O: Fn(&str, &str) -> Option<Order>>(
    order: O,
    tables: Map<Seq<char>, TableView>,
    d: DeleteStmt,
)
    requires
        d.selection is None,
        delete_table_of(d) matches Some(t) && tables.contains_key(t),
    ensures
        ({
            let t = delete_table_of(d)->0;
            let rv = delete_record_of(d)->0;
            let nt = applied(order, tables, rv)->0;
            &&& delete_record_of(d) is Some
            &&& applied(order, tables, rv) is Some
            &&& nt.contains_key(t)
            &&& nt[t].rows.len() == 0
            &&& nt[t].columns == tables[t].columns
            &&& write_result(order, tables, rv) == ExecutionResult::Delete { count: tables[t].rows.len() as usize }
        }),
{
    let t = delete_table_of(d)->0;
    let tv = tables[t];
    let rv = delete_record_of(d)->0;
    assert(rv->Delete_conditions.len() == 0);
    let pass = crate::table_scan::passes(order, tv.columns, rv->Delete_conditions);
    assert forall|i: int| 0 <= i < tv.rows.len() implies #[trigger] pass(tv.rows[i]) by {}
    lemma_filter_keeps_all(tv.rows, pass);
    let keep = |r: (u64, Seq<Seq<char>>)| !pass(r);
    lemma_filter_keeps_none(tv.rows, keep);
}

/// An UPDATE without WHERE sets its column in every row: applied (directly
/// or when its log record is replayed) it keeps every row, with its id, in
/// its place, with the assigned value in the set column and every other
/// value unchanged, and it reports as many updated rows as the table holds.
pub proof fn lemma_update_without_where_sets_every_row<O: Fn(&str, &str) -> Option<Order>>(
    order: O,
    tables: Map<Seq<char>, TableView>,
    u: UpdateStmt,
)
    requires
        u.assignments@.len() > 0,
        u.selection is None,
        u.assignments@[0].target is Some,
        set_value_of(u.assignments@[0].value) is Some,
        tables.contains_key(u.table@),
        position(tables[u.table@].columns, u.assignments@[0].target->0@) is Some,
    ensures
        ({
            let tv = tables[u.table@];
            let p = position(tv.columns, u.assignments@[0].target->0@)->0;
            let v = set_value_of(u.assignments@[0].value)->0;
            let rv = update_record_of(u)->0;
            let nt = applied(order, tables, rv)->0;
            &&& update_record_of(u) is Some
            &&& applied(order, tables, rv) is Some
            &&& nt.contains_key(u.table@)
            &&& nt[u.table@].rows.len() == tv.rows.len()
            &&& forall|i: int|
                0 <= i < tv.rows.len() ==> (#[trigger] nt[u.table@].rows[i]).0 == tv.rows[i].0 && nt[u.table@].rows[i].1
                    == tv.rows[i].1.update(p, v)
            &&& write_result(order, tables, rv) == ExecutionResult::Update { count: tv.rows.len() as usize }
        }),
{
    let tv = tables[u.table@];
    let rv = update_record_of(u)->0;
    assert(rv->Update_conditions.len() == 0);
    let pass = crate::table_scan::passes(order, tv.columns, rv->Update_conditions);
    assert forall|i: int| 0 <= i < tv.rows.len() implies #[trigger] pass(tv.rows[i]) by {}
    lemma_filter_keeps_all(tv.rows, pass);
}

/// A WHERE condition on one table reads its operator as a join condition
/// does: with `x` the row's value in the named column, `=`, `!=`, `<`,
/// `<=`, `>` and `>=` hold exactly when the value order compares `x` to the
/// literal as equal, not equal, less, less or equal, greater, and greater or
/// equal; an outcome the order leaves open satisfies none of them.
pub proof fn lemma_where_condition_operators<O: Fn(&str, &str) -> Option<Order>>(
    order: O,
    row: Seq<Seq<char>>,
    columns: Seq<Seq<char>>,
    c: ConditionView,
)
    requires
        !c.rhs_is_column,
        position(columns, actual_column(c.col)) is Some,
    ensures
        ({
            let x = row[position(columns, actual_column(c.col))->0];
            let o = order_of(order, x, c.val);
            &&& c.op == "="@ ==> condition_outcome(order, row, columns, c) == Some(o == Some(Order::Equal))
            &&& c.op == "!="@ ==> condition_outcome(order, row, columns, c) == Some(o is Some && o != Some(Order::Equal))
            &&& c.op == "<"@ ==> condition_outcome(order, row, columns, c) == Some(o == Some(Order::Less))
            &&& c.op == "<="@ ==> condition_outcome(order, row, columns, c) == Some(
                o == Some(Order::Less) || o == Some(Order::Equal),
            )
            &&& c.op == ">"@ ==> condition_outcome(order, row, columns, c) == Some(o == Some(Order::Greater))
            &&& c.op == ">="@ ==> condition_outcome(order, row, columns, c) == Some(
                o == Some(Order::Greater) || o == Some(Order::Equal),
            )
        }),
{
    reveal_strlit("=");
    reveal_strlit("!=");
    reveal_strlit("<");
    reveal_strlit("<=");
    reveal_strlit(">");
    reveal_strlit(">=");
    assert("="@.len() == 1 && "<"@.len() == 1 && ">"@.len() == 1);
    assert("!="@.len() == 2 && "<="@.len() == 2 && ">="@.len() == 2);
    assert("="@[0] == '=' && "<"@[0] == '<' && ">"@[0] == '>');
    assert("!="@[0] == '!' && "<="@[0] == '<' && ">="@[0] == '>');
}

} // verus!
