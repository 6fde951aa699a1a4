//! Stable sorting of result rows by one value, and ORDER BY / LIMIT.
use vstd::prelude::*;
use crate::projection::{ColView, ColumnExpr, ProjectionInfo, ProjView};
use crate::sql::{LimitSpec, Literal, OrderClause, SqlExpr};
use crate::text::{copy_strings, find_position, parse_usize, position, usize_of};
use crate::value::{compare_values, is_antisymmetric, is_value_order, total_order_of, Order};

verus! {


/// The value a row is sorted by: the one at `kp`, or the empty text when
/// there is none.
pub open spec fn sort_key(row: Seq<Seq<char>>, kp: Option<usize>) -> Seq<char> {
    match kp {
        Some(p) => if p < row.len() {
            row[p as int]
        } else {
            Seq::empty()
        },
        None => Seq::empty(),
    }
}

/// How row `a` compares to row `b` in ascending (`asc`) or descending order.
#[verifier::opaque]
pub open spec fn row_order<O: Fn(&str, &str) -> Option<Order>>(
    order: O,
    kp: Option<usize>,
    asc: bool,
    a: Seq<Seq<char>>,
    b: Seq<Seq<char>>,
) -> Order {
    let o = total_order_of(order, sort_key(a, kp), sort_key(b, kp));
    if asc {
        o
    } else {
        o.spec_reverse()
    }
}

/// `perm` shows `after` to be `before` sorted stably: `after` holds the rows
/// of `before`, each once; no row is followed by a smaller one; and rows
/// that compare equal keep their order.
pub open spec fn is_sort_perm<O: Fn(&str, &str) -> Option<Order>>(
    order: O,
    kp: Option<usize>,
    asc: bool,
    before: Seq<Seq<Seq<char>>>,
    after: Seq<Seq<Seq<char>>>,
    perm: Seq<int>,
) -> bool {
    &&& after.len() == before.len()
    &&& perm.len() == before.len()
    &&& forall|i: int| 0 <= i < perm.len() ==> 0 <= #[trigger] perm[i] < before.len() && after[i] == before[perm[i]]
    &&& forall|i: int, j: int| 0 <= i < j < perm.len() ==> #[trigger] perm[i] != #[trigger] perm[j]
    &&& forall|i: int|
        0 <= i < after.len() - 1 ==> #[trigger] row_order(order, kp, asc, after[i], after[i + 1]) != Order::Greater
    &&& forall|i: int, j: int|
        0 <= i < j < after.len() && row_order(order, kp, asc, #[trigger] after[i], #[trigger] after[j])
            == Order::Equal ==> perm[i] < perm[j]
}

/// `after` is `before` sorted stably by `row_order`.
pub open spec fn stably_sorted<O: Fn(&str, &str) -> Option<Order>>(
    order: O,
    kp: Option<usize>,
    asc: bool,
    before: Seq<Seq<Seq<char>>>,
    after: Seq<Seq<Seq<char>>>,
) -> bool {
    exists|perm: Seq<int>| is_sort_perm(order, kp, asc, before, after, perm)
}

/// The rows of a result, as values.
pub open spec fn rows_deep(rows: Seq<Vec<String>>) -> Seq<Seq<Seq<char>>> {
    rows.map_values(|r: Vec<String>| r.deep_view())
}

/// Indices below `n`, none twice.
#[verifier::opaque]
pub open spec fn idx_ok(idx: Seq<usize>, n: int) -> bool {
    &&& forall|k: int| 0 <= k < idx.len() ==> #[trigger] idx[k] < n
    &&& forall|a: int, b: int| 0 <= a < b < idx.len() ==> #[trigger] idx[a] != #[trigger] idx[b]
}

/// No index is followed by a greater one under `c`.
#[verifier::opaque]
pub open spec fn adj_sorted(idx: Seq<usize>, c: spec_fn(usize, usize) -> Order) -> bool {
    forall|q: int| 0 <= q < idx.len() - 1 ==> #[trigger] c(idx[q], idx[q + 1]) != Order::Greater
}

/// Indices that compare equal under `c` are in increasing order.
#[verifier::opaque]
pub open spec fn stable(idx: Seq<usize>, c: spec_fn(usize, usize) -> Order) -> bool {
    forall|a: int, b: int|
        0 <= a < b < idx.len() && c(#[trigger] idx[a], #[trigger] idx[b]) == Order::Equal ==> idx[a] < idx[b]
}

/// Inserting a new largest index keeps the indices distinct.
proof fn lemma_insert_ok(idx: Seq<usize>, i: usize, j: int)
    requires
        idx_ok(idx, i as int),
        0 <= j <= idx.len(),
    ensures
        idx_ok(idx.insert(j, i), i + 1),
        forall|k: int| 0 <= k < idx.len() + 1 ==> #[trigger] idx.insert(j, i)[k] < i + 1,
{
    reveal(idx_ok);
    let n = idx.insert(j, i);
    crate::table::lemma_insert_at(idx, j, i);
    assert forall|k: int| 0 <= k < n.len() implies #[trigger] n[k] < i + 1 by {
        if k < j {
            assert(n[k] == idx[k]);
        } else if k > j {
            assert(n[k] == idx[k - 1]);
        }
    }
    assert forall|a: int, b: int| 0 <= a < b < n.len() implies #[trigger] n[a] != #[trigger] n[b] by {
        if a == j {
            assert(n[b] == idx[b - 1]);
            assert(idx[b - 1] < i);
        } else if b == j {
            assert(n[a] == idx[a]);
            assert(idx[a] < i);
        } else {
            let a0 = if a < j { a } else { a - 1 };
            let b0 = if b < j { b } else { b - 1 };
            assert(n[a] == idx[a0] && n[b] == idx[b0]);
        }
    }
}

/// Inserting `i` after the last index that is not greater than it, before
/// indices that are all greater, keeps the indices sorted.
#[verifier::spinoff_prover]
proof fn lemma_insert_sorted(idx: Seq<usize>, c: spec_fn(usize, usize) -> Order, i: usize, j: int)
    requires
        adj_sorted(idx, c),
        0 <= j <= idx.len(),
        j == 0 || c(idx[j - 1], i) != Order::Greater,
        forall|p: int| j <= p < idx.len() ==> c(i, #[trigger] idx[p]) == Order::Less,
    ensures
        adj_sorted(idx.insert(j, i), c),
{
    reveal(adj_sorted);
    let n = idx.insert(j, i);
    crate::table::lemma_insert_at(idx, j, i);
    assert forall|q: int| 0 <= q < n.len() - 1 implies #[trigger] c(n[q], n[q + 1]) != Order::Greater by {
        if q == j {
            assert(n[q + 1] == idx[j]);
            assert(c(i, idx[j]) == Order::Less);
        } else if q == j - 1 {
            assert(n[q] == idx[j - 1]);
            assert(n[q + 1] == i);
        } else if q < j - 1 {
            assert(n[q] == idx[q] && n[q + 1] == idx[q + 1]);
        } else {
            assert(n[q] == idx[q - 1] && n[q + 1] == idx[q]);
            assert(c(idx[q - 1], idx[(q - 1) + 1]) != Order::Greater);
        }
    }
}

/// Inserting a new largest index `i` before indices that it is less than
/// keeps the equal ones in increasing order.
proof fn lemma_insert_stable(idx: Seq<usize>, c: spec_fn(usize, usize) -> Order, i: usize, j: int)
    requires
        idx_ok(idx, i as int),
        stable(idx, c),
        0 <= j <= idx.len(),
        forall|p: int| j <= p < idx.len() ==> c(i, #[trigger] idx[p]) == Order::Less,
    ensures
        stable(idx.insert(j, i), c),
{
    reveal(idx_ok);
    reveal(stable);
    let n = idx.insert(j, i);
    crate::table::lemma_insert_at(idx, j, i);
    assert forall|a: int, b: int|
        0 <= a < b < n.len() && c(#[trigger] n[a], #[trigger] n[b]) == Order::Equal implies n[a] < n[b] by {
        if b == j {
            assert(n[a] == idx[a]);
            assert(idx[a] < i);
        } else if a == j {
            assert(n[b] == idx[b - 1]);
            assert(c(i, idx[b - 1]) == Order::Less);
        } else {
            let a0 = if a < j { a } else { a - 1 };
            let b0 = if b < j { b } else { b - 1 };
            assert(n[a] == idx[a0] && n[b] == idx[b0]);
        }
    }
}

/// Comparing two rows the other way round gives the opposite outcome.
proof fn lemma_row_order_flip<O: Fn(&str, &str) -> Option<Order>>(
    order: O,
    kp: Option<usize>,
    asc: bool,
    a: Seq<Seq<char>>,
    b: Seq<Seq<char>>,
)
    requires
        is_antisymmetric(order),
    ensures
        row_order(order, kp, asc, a, b) == row_order(order, kp, asc, b, a).spec_reverse(),
{
    reveal(is_antisymmetric);
    reveal(row_order);
    let ka = sort_key(a, kp);
    let kb = sort_key(b, kp);
    assert(crate::value::order_of(order, ka, kb) == match crate::value::order_of(order, kb, ka) {
        Some(o) => Some(o.spec_reverse()),
        None => None,
    });
}

/// Rows taken in the order of sorted, stable indices are sorted stably.
#[verifier::spinoff_prover]
proof fn lemma_sorted_result<O: Fn(&str, &str) -> Option<Order>>(
    order: O,
    kp: Option<usize>,
    asc: bool,
    rv: Seq<Seq<Seq<char>>>,
    idx: Seq<usize>,
    after: Seq<Seq<Seq<char>>>,
)
    requires
        idx.len() == rv.len(),
        after.len() == rv.len(),
        idx_ok(idx, rv.len() as int),
        adj_sorted(idx, |x: usize, y: usize| row_order(order, kp, asc, rv[x as int], rv[y as int])),
        stable(idx, |x: usize, y: usize| row_order(order, kp, asc, rv[x as int], rv[y as int])),
        forall|q: int| 0 <= q < after.len() ==> #[trigger] after[q] == rv[idx[q] as int],
    ensures
        stably_sorted(order, kp, asc, rv, after),
{
    reveal(idx_ok);
    reveal(adj_sorted);
    reveal(stable);
    let c = |x: usize, y: usize| row_order(order, kp, asc, rv[x as int], rv[y as int]);
    let perm = idx.map_values(|x: usize| x as int);
    assert forall|q: int| 0 <= q < after.len() - 1 implies #[trigger] row_order(order, kp, asc, after[q], after[q + 1])
        != Order::Greater by {
        assert(c(idx[q], idx[q + 1]) != Order::Greater);
    }
    assert forall|a: int, b: int|
        0 <= a < b < after.len() && row_order(order, kp, asc, #[trigger] after[a], #[trigger] after[b])
            == Order::Equal implies perm[a] < perm[b] by {
        assert(c(idx[a], idx[b]) == Order::Equal);
    }
    assert forall|a: int, b: int| 0 <= a < b < perm.len() implies #[trigger] perm[a] != #[trigger] perm[b] by {
        assert(idx[a] != idx[b]);
    }
    assert forall|i: int| 0 <= i < perm.len() implies 0 <= #[trigger] perm[i] < rv.len() && after[i] == rv[perm[i]] by {
        assert(idx[i] < rv.len());
    }
    assert(is_sort_perm(order, kp, asc, rv, after, perm));
}

/// Compares two result rows by their sort keys.
pub fn compare_rows<O: Fn(&str, &str) -> Option<Order>>(
    a: &Vec<String>,
    b: &Vec<String>,
    kp: Option<usize>,
    asc: bool,
    order: &O,
) -> (r: Order)
    requires
        is_value_order(*order),
    ensures
        r == row_order(*order, kp, asc, a.deep_view(), b.deep_view()),
{
    let empty = String::new();
    let ka: &String = match kp {
        Some(p) => if p < a.len() {
            &a[p]
        } else {
            &empty
        },
        None => &empty,
    };
    let kb: &String = match kp {
        Some(p) => if p < b.len() {
            &b[p]
        } else {
            &empty
        },
        None => &empty,
    };
    proof {
        assert(empty@ =~= Seq::<char>::empty());
        reveal(row_order);
    }
    let o = compare_values(order, ka.as_str(), kb.as_str());
    if asc {
        o
    } else {
        o.reverse()
    }
}

/// The rows sorted stably by the value at `kp`, ascending or descending.
pub fn sort_rows<O: Fn(&str, &str) -> Option<Order>>(
    rows: &Vec<Vec<String>>,
    kp: Option<usize>,
    asc: bool,
    order: &O,
) -> (r: Vec<Vec<String>>)
    requires
        is_value_order(*order),
        is_antisymmetric(*order),
    ensures
        stably_sorted(*order, kp, asc, rows_deep(rows@), rows_deep(r@)),
{
    let ghost rv = rows_deep(rows@);
    let ghost c = |x: usize, y: usize| row_order(*order, kp, asc, rv[x as int], rv[y as int]);
    let n = rows.len();
    let mut idx: Vec<usize> = Vec::new();
    let mut i: usize = 0;
    let ghost c0 = c;
    assert(idx_ok(idx@, 0)) by {
        reveal(idx_ok);
    }
    assert(adj_sorted(idx@, c0)) by {
        reveal(adj_sorted);
    }
    assert(stable(idx@, c0)) by {
        reveal(stable);
    }
    while i < n
        invariant
            n == rows@.len(),
            rv == rows_deep(rows@),
            is_value_order(*order),
            is_antisymmetric(*order),
            c == (|x: usize, y: usize| row_order(*order, kp, asc, rv[x as int], rv[y as int])),
            i <= n,
            idx@.len() == i,
            idx_ok(idx@, i as int),
            forall|k: int| 0 <= k < idx@.len() ==> #[trigger] idx@[k] < i,
            adj_sorted(idx@, c),
            stable(idx@, c),
        decreases n - i,
    {
        let mut j: usize = idx.len();
        while j > 0 && compare_rows(&rows[idx[j - 1]], &rows[i], kp, asc, order) == Order::Greater
            invariant
                n == rows@.len(),
                rv == rows_deep(rows@),
                is_value_order(*order),
                is_antisymmetric(*order),
                c == (|x: usize, y: usize| row_order(*order, kp, asc, rv[x as int], rv[y as int])),
                i < n,
                idx@.len() == i,
                idx_ok(idx@, i as int),
                forall|k: int| 0 <= k < idx@.len() ==> #[trigger] idx@[k] < i,
                j <= idx@.len(),
                forall|p: int| j <= p < idx@.len() ==> c(i, #[trigger] idx@[p]) == Order::Less,
            decreases j,
        {
            proof {
                let x = idx@[j - 1];
                assert(rv[x as int] == rows@[x as int].deep_view());
                assert(rv[i as int] == rows@[i as int].deep_view());
                lemma_row_order_flip(*order, kp, asc, rv[i as int], rv[x as int]);
                assert(c(i, x) == Order::Less);
            }
            j = j - 1;
        }
        proof {
            if j > 0 {
                assert(rv[idx@[j - 1] as int] == rows@[idx@[j - 1] as int].deep_view());
                assert(rv[i as int] == rows@[i as int].deep_view());
            }
            lemma_insert_ok(idx@, i, j as int);
            lemma_insert_sorted(idx@, c, i, j as int);
            lemma_insert_stable(idx@, c, i, j as int);
        }
        idx.insert(j, i);
        i = i + 1;
    }
    let mut out: Vec<Vec<String>> = Vec::new();
    let mut k: usize = 0;
    while k < n
        invariant
            n == rows@.len(),
            rv == rows_deep(rows@),
            idx@.len() == n,
            idx_ok(idx@, n as int),
            forall|q: int| 0 <= q < idx@.len() ==> #[trigger] idx@[q] < n,
            k <= n,
            out@.len() == k,
            forall|q: int| 0 <= q < k ==> #[trigger] out@[q].deep_view() == rv[idx@[q] as int],
        decreases n - k,
    {
        out.push(copy_strings(&rows[idx[k]]));
        k = k + 1;
    }
    proof {
        lemma_sorted_result(*order, kp, asc, rv, idx@, rows_deep(out@));
    }
    out
}

/// The first position of the plain column `v` in a SELECT list.
pub open spec fn column_index(cs: Seq<ColView>, v: Seq<char>) -> Option<int>
    decreases cs.len(),
{
    if cs.len() == 0 {
        None
    } else if cs.last() == ColView::Column(v) && column_index(cs.drop_last(), v) is None {
        Some(cs.len() - 1)
    } else {
        column_index(cs.drop_last(), v)
    }
}

/// Where the sort key of an output row is: for `*`, the column's position
/// among the table's columns (the first one when it has none of that
/// name); otherwise the column's place in the SELECT list, if it is there.
pub open spec fn key_pos(proj: ProjView, all_columns: Seq<Seq<char>>, v: Seq<char>) -> Option<usize> {
    if proj.is_wildcard {
        Some(
            match position(all_columns, v) {
                Some(p) => p as usize,
                None => 0,
            },
        )
    } else {
        match column_index(proj.columns, v) {
            Some(p) => Some(p as usize),
            None => None,
        }
    }
}

/// The sort an ORDER BY asks for: `Some(None)` for none, `Some(Some((key
/// position, ascending)))`, or `None` for an error (more than one key, or a
/// key that is no plain column name).
pub open spec fn order_spec(
    order_by: Option<OrderClause>,
    proj: ProjView,
    all_columns: Seq<Seq<char>>,
) -> Option<Option<(Option<usize>, bool)>> {
    match order_by {
        Some(OrderClause::Expressions(es)) => {
            if es@.len() > 1 {
                None
            } else if es@.len() == 0 {
                Some(None)
            } else {
                match es@[0].expr {
                    SqlExpr::Identifier(v) => Some(
                        Some(
                            (
                                key_pos(proj, all_columns, v@),
                                match es@[0].asc {
                                    Some(b) => b,
                                    None => true,
                                },
                            ),
                        ),
                    ),
                    _ => None,
                }
            }
        },
        _ => Some(None),
    }
}

/// The number of rows a LIMIT keeps: `Some(None)` without one, `None` for
/// an error (no number, or one that is no `usize`).
pub open spec fn limit_spec(limit: Option<LimitSpec>) -> Option<Option<usize>> {
    match limit {
        None => Some(None),
        Some(LimitSpec::LimitOffset(Some(SqlExpr::Lit(Literal::Number(n)))))
        | Some(LimitSpec::OffsetCommaLimit(SqlExpr::Lit(Literal::Number(n)))) => match usize_of(n@) {
            Some(k) => Some(Some(k)),
            None => None,
        },
        _ => None,
    }
}

/// The text of the error reading ORDER BY and LIMIT gives, where they give
/// one: ORDER BY first.
pub open spec fn order_limit_error(order_by: Option<OrderClause>, limit: Option<LimitSpec>) -> Seq<char> {
    match order_by {
        Some(OrderClause::Expressions(es)) if es@.len() > 1 => "仅支持单列排序"@,
        Some(OrderClause::Expressions(es)) if es@.len() == 1 && !(es@[0].expr is Identifier) => "ORDER BY 仅支持列名"@,
        _ => match limit {
            Some(LimitSpec::LimitOffset(Some(SqlExpr::Lit(Literal::Number(_)))))
            | Some(LimitSpec::OffsetCommaLimit(SqlExpr::Lit(Literal::Number(_)))) => "无效 LIMIT"@,
            _ => "LIMIT 必须是数字"@,
        },
    }
}

/// `sorted` is `before` sorted as `sort` asks (unchanged without a sort).
pub open spec fn sorted_as<O: Fn(&str, &str) -> Option<Order>>(
    order: O,
    sort: Option<(Option<usize>, bool)>,
    before: Seq<Seq<Seq<char>>>,
    sorted: Seq<Seq<Seq<char>>>,
) -> bool {
    match sort {
        None => sorted == before,
        Some((kp, asc)) => stably_sorted(order, kp, asc, before, sorted),
    }
}

/// The first `lim` rows (all of them without a limit).
pub open spec fn limited(lim: Option<usize>, rows: Seq<Seq<Seq<char>>>) -> Seq<Seq<Seq<char>>> {
    match lim {
        Some(k) => if k < rows.len() {
            rows.take(k as int)
        } else {
            rows
        },
        None => rows,
    }
}

/// `after` is `before` sorted as `sort` asks, then cut to `lim` rows.
pub open spec fn ordered_limited<O: Fn(&str, &str) -> Option<Order>>(
    order: O,
    sort: Option<(Option<usize>, bool)>,
    lim: Option<usize>,
    before: Seq<Seq<Seq<char>>>,
    after: Seq<Seq<Seq<char>>>,
) -> bool {
    exists|sorted: Seq<Seq<Seq<char>>>| #[trigger] sorted_as(order, sort, before, sorted) && after == limited(lim, sorted)
}

/// Whether every row is long enough for a sort by the position `kp` of a
/// full row.
pub open spec fn rows_reach(rows: Seq<Seq<Seq<char>>>, kp: usize) -> bool {
    forall|i: int| 0 <= i < rows.len() ==> kp < (#[trigger] rows[i]).len()
}

/// A sort of full rows (`*`) by a position reaches that position in every
/// row, when there are two rows or more to compare.
pub open spec fn sort_fits(
    proj: ProjView,
    all_columns: Seq<Seq<char>>,
    order_by: Option<OrderClause>,
    rows: Seq<Seq<Seq<char>>>,
) -> bool {
    proj.is_wildcard ==> (order_spec(order_by, proj, all_columns) matches Some(Some((Some(p), _))) ==> (
    rows.len() >= 2 ==> rows_reach(rows, p)))
}

/// Whether a sort of the rows as ORDER BY asks reaches its key in every row.
pub fn check_sort_fits(
    proj: &ProjectionInfo,
    all_columns: &Vec<String>,
    order_by: &Option<OrderClause>,
    rows: &Vec<Vec<String>>,
) -> (r: bool)
    ensures
        r == sort_fits(proj@, all_columns.deep_view(), *order_by, rows_deep(rows@)),
{
    if !proj.is_wildcard || rows.len() < 2 {
        return true;
    }
    let col_name = match order_by {
        Some(OrderClause::Expressions(es)) => {
            if es.len() != 1 {
                return true;
            }
            match &es[0].expr {
                SqlExpr::Identifier(v) => v,
                _ => {
                    return true;
                },
            }
        },
        _ => {
            return true;
        },
    };
    let p = match find_key_pos(proj, all_columns, col_name) {
        Some(p) => p,
        None => {
            return true;
        },
    };
    let ghost rv = rows_deep(rows@);
    assert(order_spec(*order_by, proj@, all_columns.deep_view()) matches Some(Some((Some(q), _))) && q == p);
    let mut i: usize = 0;
    while i < rows.len()
        invariant
            i <= rows@.len(),
            rv == rows_deep(rows@),
            proj.is_wildcard,
            rows@.len() >= 2,
            order_spec(*order_by, proj@, all_columns.deep_view()) matches Some(Some((Some(q), _))) && q == p,
            forall|j: int| 0 <= j < i ==> p < (#[trigger] rv[j]).len(),
        decreases rows@.len() - i,
    {
        if rows[i].len() <= p {
            proof {
                assert(rv[i as int].len() <= p);
                assert(!rows_reach(rv, p));
            }
            return false;
        }
        i = i + 1;
    }
    true
}

/// Reads the position of the sort key.
fn find_key_pos(proj: &ProjectionInfo, all_columns: &Vec<String>, v: &String) -> (r: Option<usize>)
    ensures
        r == key_pos(proj@, all_columns.deep_view(), v@),
{
    if proj.is_wildcard {
        match find_position(all_columns, v) {
            Some(p) => Some(p),
            None => Some(0),
        }
    } else {
        let ghost cs = proj@.columns;
        let mut found: Option<usize> = None;
        let mut i: usize = 0;
        proof {
            assert(cs.take(0) =~= Seq::<ColView>::empty());
        }
        while i < proj.columns.len()
            invariant
                i <= proj.columns@.len(),
                cs == proj@.columns,
                cs.len() == proj.columns@.len(),
                match column_index(cs.take(i as int), v@) {
                    Some(p) => found == Some(p as usize),
                    None => found is None,
                },
            decreases proj.columns@.len() - i,
        {
            proof {
                assert(cs.take(i + 1).drop_last() =~= cs.take(i as int));
                assert(cs.take(i + 1).last() == proj.columns@[i as int]@);
            }
            if found.is_none() {
                match &proj.columns[i] {
                    ColumnExpr::Column(c) => {
                        if *c == *v {
                            found = Some(i);
                        }
                    },
                    ColumnExpr::Aggregate(_) => {},
                }
            }
            i = i + 1;
        }
        proof {
            assert(cs.take(cs.len() as int) =~= cs);
        }
        found
    }
}

/// Sorts the rows as ORDER BY asks, then keeps as many as LIMIT allows.
/// ORDER BY takes one plain column name at most; LIMIT takes a number.
/// An error in ORDER BY leaves the rows as they were; an error in LIMIT
/// comes after the sort.
pub fn apply_order_limit<O: Fn(&str, &str) -> Option<Order>>(
    rows: &mut Vec<Vec<String>>,
    proj: &ProjectionInfo,
    all_columns: &Vec<String>,
    order_by: &Option<OrderClause>,
    limit_clause: &Option<LimitSpec>,
    order: &O,
) -> (r: Result<(), String>)
    requires
        is_value_order(*order),
        is_antisymmetric(*order),
        sort_fits(proj@, all_columns.deep_view(), *order_by, rows_deep(old(rows)@)),
    ensures
        r is Err <==> (order_spec(*order_by, proj@, all_columns.deep_view()) is None || limit_spec(*limit_clause) is None),
        r matches Err(e) ==> e@ == order_limit_error(*order_by, *limit_clause),
        order_spec(*order_by, proj@, all_columns.deep_view()) is None ==> final(rows)@ == old(rows)@,
        order_spec(*order_by, proj@, all_columns.deep_view()) matches Some(sort) ==> ordered_limited(
            *order,
            sort,
            match limit_spec(*limit_clause) {
                Some(l) => l,
                None => None,
            },
            rows_deep(old(rows)@),
            rows_deep(final(rows)@),
        ),
{
    let ghost before = rows_deep(rows@);
    let ghost sort = order_spec(*order_by, proj@, all_columns.deep_view());
    match order_by {
        Some(OrderClause::Expressions(es)) => {
            if es.len() > 1 {
                return Err("仅支持单列排序".to_string());
            }
            if es.len() == 1 {
                let col_name = match &es[0].expr {
                    SqlExpr::Identifier(v) => v,
                    _ => {
                        return Err("ORDER BY 仅支持列名".to_string());
                    },
                };
                let ascending = match es[0].asc {
                    Some(b) => b,
                    None => true,
                };
                let kp = find_key_pos(proj, all_columns, col_name);
                let sorted = sort_rows(rows, kp, ascending, order);
                *rows = sorted;
            }
        },
        _ => {},
    }
    let ghost sorted = rows_deep(rows@);
    proof {
        assert(sort matches Some(s) && sorted_as(*order, s, before, sorted));
    }
    let lim = match limit_clause {
        None => None,
        Some(LimitSpec::LimitOffset(Some(SqlExpr::Lit(Literal::Number(n))))) => match parse_usize(n.as_str()) {
            Some(k) => Some(k),
            None => {
                return Err("无效 LIMIT".to_string());
            },
        },
        Some(LimitSpec::OffsetCommaLimit(SqlExpr::Lit(Literal::Number(n)))) => match parse_usize(n.as_str()) {
            Some(k) => Some(k),
            None => {
                return Err("无效 LIMIT".to_string());
            },
        },
        Some(_) => {
            return Err("LIMIT 必须是数字".to_string());
        },
    };
    match lim {
        Some(k) => {
            rows.truncate(k);
            proof {
                if k < sorted.len() {
                    assert(rows_deep(rows@) =~= sorted.take(k as int));
                }
            }
        },
        None => {},
    }
    proof {
        assert(limit_spec(*limit_clause) == Some(lim));
        if lim is None || lim->0 >= sorted.len() {
            assert(rows_deep(rows@) =~= sorted);
        }
        assert(rows_deep(rows@) == limited(lim, sorted));
        assert(sorted_as(*order, sort->0, before, sorted));
    }
    Ok(())
}

} // verus!
