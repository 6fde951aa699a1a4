//! Running a SELECT: on one table (through an index when one serves a
//! single equality), as an aggregate, or as a join; and the lookup counts
//! that make the database build indexes on its own.
use vstd::prelude::*;
use crate::aggregate::{aggregate_error, aggregate_output, execute_aggregate};
use crate::condition::{conditions_view, Condition, ConditionView};
use crate::database::{auto_indexed, Database, DatabaseView};
use crate::join::{from_error, join_error, join_result, nested_loop_join, parse_from_clause, table_refs_view, from_tables, TableRefView};
use crate::outcome::ExecutionResult;
use crate::projection::{col_views, parse_projection, projection_error, projection_of, ColView, ColumnExpr, ProjView};
use crate::records::{where_error, where_of};
use crate::sorting::{apply_order_limit, check_sort_fits, limit_spec, order_limit_error, order_spec, ordered_limited, rows_deep, sort_fits};
use crate::sql::{GroupClause, QueryShape, SelectCore, SelectQuery};
use crate::stats::{bumped, count_of, lookup_key, StatsView};
use crate::table::{ids_of, index_consistent, row_has, TableView};
use crate::table_index::row_values;
use crate::table_scan::passing_rows;
use crate::text::{find_position, position};
use crate::value::{is_antisymmetric, is_numeric_fn, is_value_order, str_equal, Numeric, Order};

verus! {

broadcast use vstd::string::group_string_axioms;

/// The rows a single-table query looks at: those an index lists for a
/// lone equality on an indexed column, else those that pass the
/// conditions; with the number of rows looked at and whether an index
/// served.
pub open spec fn candidates<O: Fn(&str, &str) -> Option<Order>>(
    order: O,
    tv: TableView,
    conds: Seq<ConditionView>,
) -> (Seq<Seq<Seq<char>>>, int, bool) {
    if conds.len() == 1 && conds[0].op == "="@ && tv.index_scan(conds[0]) is Some {
        let rs = tv.index_scan(conds[0])->0;
        (rs.map_values(|r: (u64, Seq<Seq<char>>)| r.1), rs.len() as int, true)
    } else {
        (passing_rows(order, tv, conds).map_values(|r: (u64, Seq<Seq<char>>)| r.1), tv.rows.len() as int, false)
    }
}

/// The listed columns of a row; `None` for a column the table lacks. An
/// aggregate item, which a plain query does not have, reads `?`.
pub open spec fn project_items(cols: Seq<ColView>, columns: Seq<Seq<char>>, row: Seq<Seq<char>>) -> Option<Seq<Seq<char>>>
    decreases cols.len(),
{
    if cols.len() == 0 {
        Some(Seq::empty())
    } else {
        match project_items(cols.drop_last(), columns, row) {
            None => None,
            Some(a) => match cols.last() {
                ColView::Column(c) => match position(columns, c) {
                    Some(p) => Some(a.push(row[p])),
                    None => None,
                },
                ColView::Aggregate(_) => Some(a.push("?"@)),
            },
        }
    }
}

/// The output row of a single-table query for one table row.
pub open spec fn project_row(proj: ProjView, columns: Seq<Seq<char>>, row: Seq<Seq<char>>) -> Option<Seq<Seq<char>>> {
    if proj.is_wildcard {
        Some(row)
    } else {
        project_items(proj.columns, columns, row)
    }
}

/// The output rows for the candidate rows; `None` when one fails.
pub open spec fn project_rows(proj: ProjView, columns: Seq<Seq<char>>, rows: Seq<Seq<Seq<char>>>) -> Option<
    Seq<Seq<Seq<char>>>,
>
    decreases rows.len(),
{
    if rows.len() == 0 {
        Some(Seq::empty())
    } else {
        match (project_rows(proj, columns, rows.drop_last()), project_row(proj, columns, rows.last())) {
            (Some(a), Some(r)) => Some(a.push(r)),
            _ => None,
        }
    }
}

/// One equality lookup of `cond` in `table` counted: when it used no index
/// and its count reaches the threshold, the column gets an index named
/// after it (if it has none). Gives the database after it, and `false`
/// when building that index failed.
pub open spec fn record_lookup(db: DatabaseView, table: Seq<char>, c: ConditionView, used: bool) -> (DatabaseView, bool) {
    if c.op != "="@ || used {
        (db, true)
    } else {
        let k = lookup_key(table, c.col);
        let cnt = bumped(count_of(db.stats.counts, k));
        let db1 = DatabaseView { stats: StatsView { counts: db.stats.counts.insert(k, cnt), ..db.stats }, ..db };
        if cnt >= db.stats.threshold {
            match auto_indexed(db.tables, table, c.col) {
                Some(t) => (DatabaseView { tables: t, ..db1 }, true),
                None => (db1, false),
            }
        } else {
            (db1, true)
        }
    }
}

/// Every condition's lookup counted in order, stopping when an index
/// cannot be built.
pub open spec fn record_lookups(db: DatabaseView, table: Seq<char>, conds: Seq<ConditionView>, used: bool) -> (
    DatabaseView,
    bool,
)
    decreases conds.len(),
{
    if conds.len() == 0 {
        (db, true)
    } else {
        let (d, ok) = record_lookups(db, table, conds.drop_last(), used);
        if ok {
            record_lookup(d, table, conds.last(), used)
        } else {
            (d, false)
        }
    }
}

/// `r` reports the rows `out` after ORDER BY and LIMIT, with the number of
/// rows looked at and whether an index served.
pub open spec fn select_rows_ok<O: Fn(&str, &str) -> Option<Order>>(
    order: O,
    sort: Option<Option<(Option<usize>, bool)>>,
    lim: Option<Option<usize>>,
    out: Seq<Seq<Seq<char>>>,
    scanned: int,
    used: bool,
    r: Result<ExecutionResult, String>,
) -> bool {
    r matches Ok(ExecutionResult::Select { rows, scanned: s, used_index: u }) && s == scanned && u == used
        && ordered_limited(order, sort->0, lim->0, out, rows_deep(rows@))
}

/// What a query on one table does.
pub open spec fn single_select_ok<O: Fn(&str, &str) -> Option<Order>>(
    order: O,
    old_db: DatabaseView,
    new_db: DatabaseView,
    tname: Seq<char>,
    conds: Seq<ConditionView>,
    proj: ProjView,
    q: SelectQuery,
    r: Result<ExecutionResult, String>,
) -> bool {
    if !old_db.tables.contains_key(tname) {
        new_db == old_db && (r matches Err(e) && e@ == "Table not found"@)
    } else {
        let tv = old_db.tables[tname];
        let (cands, scanned, used) = candidates(order, tv, conds);
        let out = project_rows(proj, tv.columns, cands);
        let sort = order_spec(q.order_by, proj, tv.columns);
        let lim = limit_spec(q.limit);
        if out is None || sort is None || lim is None || !sort_fits(proj, tv.columns, q.order_by, out->0) {
            &&& new_db == old_db
            &&& r matches Err(e)
            &&& e@ == if out is None {
                project_error(proj, tv.columns)
            } else if !sort_fits(proj, tv.columns, q.order_by, out->0) {
                "ORDER BY 列超出结果行"@
            } else {
                order_limit_error(q.order_by, q.limit)
            }
        } else {
            let (after, ok) = record_lookups(old_db, tname, conds, used);
            &&& new_db == after
            &&& ok ==> select_rows_ok(order, sort, lim, out->0, scanned, used, r)
            &&& !ok ==> (r matches Err(e) && e@ == "Column not found"@)
        }
    }
}

/// Whether a query groups its rows: an aggregate in the list, or a GROUP BY.
pub open spec fn is_aggregate(proj: ProjView, g: GroupClause) -> bool {
    proj.has_aggregate || match g {
        GroupClause::Expressions(es) => es@.len() > 0,
        GroupClause::All => true,
    }
}

/// What an aggregate query on the table `tref` does (the database does not
/// change).
pub open spec fn aggregate_select_ok<O: Fn(&str, &str) -> Option<Order>, N: Fn(Numeric, &Vec<String>) -> String>(
    order: O,
    numeric: N,
    db: DatabaseView,
    tref: TableRefView,
    conds: Seq<ConditionView>,
    proj: ProjView,
    core: SelectCore,
    q: SelectQuery,
    r: Result<ExecutionResult, String>,
) -> bool {
    if !db.tables.contains_key(tref.name) {
        r matches Err(e) && e@ == "Table not found"@
    } else {
        let tv = db.tables[tref.name];
        let out = aggregate_output(order, numeric, tv, conds, proj, core.group_by, core.having);
        let sort = order_spec(q.order_by, proj, tv.columns);
        let lim = limit_spec(q.limit);
        &&& (r is Ok <==> (out is Some && sort is Some && lim is Some && sort_fits(proj, tv.columns, q.order_by, out->0)))
        &&& r is Ok ==> select_rows_ok(order, sort, lim, out->0, tv.rows.len() as int, false, r)
        &&& out is None ==> (r matches Err(e) && e@ == aggregate_error(
            order,
            numeric,
            tv,
            conds,
            proj,
            core.group_by,
            core.having,
        ))
        &&& (out is Some && r is Err) ==> (r matches Err(e) && e@ == if !sort_fits(proj, tv.columns, q.order_by, out->0) {
            "ORDER BY 列超出结果行"@
        } else {
            order_limit_error(q.order_by, q.limit)
        })
    }
}

/// What a join query does (the database does not change).
pub open spec fn join_select_ok<O: Fn(&str, &str) -> Option<Order>>(
    order: O,
    db: DatabaseView,
    refs: Seq<TableRefView>,
    conds: Seq<ConditionView>,
    proj: ProjView,
    q: SelectQuery,
    r: Result<ExecutionResult, String>,
) -> bool {
    match join_result(order, db.tables, refs, conds, proj) {
        None => r matches Err(e) && e@ == join_error(order, db.tables, refs, conds, proj),
        Some((out, scanned)) => {
            let sort = order_spec(q.order_by, proj, Seq::empty());
            let lim = limit_spec(q.limit);
            &&& (r is Ok <==> (sort is Some && lim is Some && sort_fits(proj, Seq::empty(), q.order_by, out)))
            &&& r is Ok ==> select_rows_ok(order, sort, lim, out, scanned, false, r)
            &&& r matches Err(e) ==> e@ == if !sort_fits(proj, Seq::empty(), q.order_by, out) {
                "ORDER BY 列超出结果行"@
            } else {
                order_limit_error(q.order_by, q.limit)
            }
        }
    }
}

/// What running a query does: an error unless its body is a plain SELECT
/// whose list, FROM and WHERE can be read; then an aggregate query, a query
/// on one table, or a join.
pub open spec fn select_ok<O: Fn(&str, &str) -> Option<Order>, N: Fn(Numeric, &Vec<String>) -> String>(
    order: O,
    numeric: N,
    old_db: DatabaseView,
    new_db: DatabaseView,
    q: SelectQuery,
    r: Result<ExecutionResult, String>,
) -> bool {
    match q.body {
        QueryShape::Simple(core) => match (projection_of(core.projection@), from_tables(core.from@), where_of(core.selection)) {
            (Some(proj), Some(refs), Some(conds)) => {
                if is_aggregate(proj, core.group_by) {
                    &&& new_db == old_db
                    &&& refs.len() == 0 ==> (r matches Err(e) && e@ == "聚合查询需要一张表"@)
                    &&& refs.len() > 0 ==> aggregate_select_ok(order, numeric, old_db, refs[0], conds, proj, core, q, r)
                } else if refs.len() == 1 {
                    single_select_ok(order, old_db, new_db, refs[0].name, conds, proj, q, r)
                } else {
                    new_db == old_db && join_select_ok(order, old_db, refs, conds, proj, q, r)
                }
            },
            (p, f, w) => {
                &&& new_db == old_db
                &&& r matches Err(e)
                &&& e@ == if p is None {
                    projection_error(core.projection@)
                } else if f is None {
                    from_error(core.from@)
                } else {
                    where_error(core.selection)
                }
            },
        },
        QueryShape::Other => new_db == old_db && (r matches Err(e) && e@ == "Only simple SELECT"@),
    }
}

/// Rows an index lists belong to the table, so they have a value for each
/// column.
proof fn lemma_index_rows_len(tv: TableView, c: ConditionView)
    requires
        tv.wf(),
        tv.index_scan(c) is Some,
    ensures
        forall|i: int| 0 <= i < tv.index_scan(c)->0.len() ==> (#[trigger] tv.index_scan(c)->0[i]).1.len() == tv.columns.len(),
{
    let m = tv.indexes[c.col];
    let p = crate::table::column_pos(tv.columns, c.col);
    let ids = ids_of(m, c.val);
    assert(index_consistent(tv.rows, p, m));
    assert forall|i: int| 0 <= i < tv.index_scan(c)->0.len() implies (#[trigger] tv.index_scan(c)->0[i]).1.len()
        == tv.columns.len() by {
        let id = ids[i];
        assert(m.contains_key(c.val));
        assert(row_has(tv.rows, m[c.val][i], p, c.val));
        let r = choose|r: int| 0 <= r < tv.rows.len() && #[trigger] tv.rows[r].0 == id;
        assert(tv.rows[r].1.len() == tv.columns.len());
    }
}

/// A listed column the table lacks.
pub open spec fn is_missing(c: ColView, columns: Seq<Seq<char>>) -> bool {
    c matches ColView::Column(n) && position(columns, n) is None
}

/// The first listed column the table lacks.
pub open spec fn first_missing(cs: Seq<ColView>, columns: Seq<Seq<char>>) -> Seq<char>
    decreases cs.len(),
{
    if cs.len() == 0 {
        Seq::empty()
    } else if is_missing(cs[0], columns) {
        cs[0]->Column_0
    } else {
        first_missing(cs.drop_first(), columns)
    }
}

/// The text of the error projecting rows gives, where it gives one.
pub open spec fn project_error(proj: ProjView, columns: Seq<Seq<char>>) -> Seq<char> {
    "Column "@ + first_missing(proj.columns, columns) + " not found"@
}

proof fn lemma_first_missing(cs: Seq<ColView>, columns: Seq<Seq<char>>, k: int)
    requires
        0 <= k < cs.len(),
        forall|j: int| 0 <= j < k ==> !is_missing(#[trigger] cs[j], columns),
        is_missing(cs[k], columns),
    ensures
        first_missing(cs, columns) == cs[k]->Column_0,
    decreases k,
{
    if k > 0 {
        assert(!is_missing(cs[0], columns));
        let rest = cs.drop_first();
        assert forall|j: int| 0 <= j < k - 1 implies !is_missing(#[trigger] rest[j], columns) by {
            assert(rest[j] == cs[j + 1]);
        }
        lemma_first_missing(rest, columns, k - 1);
    }
}

/// Builds the output rows of a query on one table.
fn project_candidates(
    cand: &Vec<(u64, &Vec<String>)>,
    proj: &crate::projection::ProjectionInfo,
    all_columns: &Vec<String>,
) -> (r: Result<Vec<Vec<String>>, String>)
    requires
        forall|i: int| 0 <= i < cand@.len() ==> (#[trigger] cand@[i]).1@.len() == all_columns@.len(),
    ensures
        match r {
            Ok(v) => project_rows(proj@, all_columns.deep_view(), cand@.map_values(|q: (u64, &Vec<String>)| q.1.deep_view()))
                == Some(rows_deep(v@)),
            Err(e) => project_rows(proj@, all_columns.deep_view(), cand@.map_values(|q: (u64, &Vec<String>)| q.1.deep_view()))
                is None && e@ == project_error(proj@, all_columns.deep_view()),
        },
{
    let ghost cv = cand@.map_values(|q: (u64, &Vec<String>)| q.1.deep_view());
    let ghost cols = all_columns.deep_view();
    let mut out: Vec<Vec<String>> = Vec::new();
    let mut i: usize = 0;
    proof {
        assert(cv.take(0) =~= Seq::<Seq<Seq<char>>>::empty());
        assert(rows_deep(out@) =~= Seq::<Seq<Seq<char>>>::empty());
        reveal_strlit("?");
    }
    while i < cand.len()
        invariant
            i <= cand@.len(),
            cv == cand@.map_values(|q: (u64, &Vec<String>)| q.1.deep_view()),
            cols == all_columns.deep_view(),
            forall|j: int| 0 <= j < cand@.len() ==> (#[trigger] cand@[j]).1@.len() == all_columns@.len(),
            project_rows(proj@, cols, cv.take(i as int)) == Some(rows_deep(out@)),
        decreases cand@.len() - i,
    {
        let row = cand[i].1;
        proof {
            assert(cv.take(i + 1).drop_last() =~= cv.take(i as int));
            assert(cv.take(i + 1).last() == row.deep_view());
        }
        let pr: Vec<String> = if proj.is_wildcard {
            crate::text::copy_strings(row)
        } else {
            let mut pr: Vec<String> = Vec::new();
            let ghost pc = col_views(proj.columns@);
            let mut k: usize = 0;
            proof {
                assert(pc.take(0) =~= Seq::<ColView>::empty());
                assert(pr.deep_view() =~= Seq::<Seq<char>>::empty());
            }
            while k < proj.columns.len()
                invariant
                    k <= proj.columns@.len(),
                    i < cand@.len(),
                    !proj.is_wildcard,
                    cv == cand@.map_values(|q: (u64, &Vec<String>)| q.1.deep_view()),
                    row.deep_view() == cv[i as int],
                    cv.take(i + 1).drop_last() == cv.take(i as int),
                    cv.take(i + 1).last() == cv[i as int],
                    project_rows(proj@, cols, cv.take(i as int)) == Some(rows_deep(out@)),
                    pc == col_views(proj.columns@),
                    pc == proj@.columns,
                    cols == all_columns.deep_view(),
                    row@.len() == all_columns@.len(),
                    project_items(pc.take(k as int), cols, row.deep_view()) == Some(pr.deep_view()),
                    forall|j: int| 0 <= j < k ==> !is_missing(#[trigger] pc[j], cols),
                decreases proj.columns@.len() - k,
            {
                proof {
                    assert(pc.take(k + 1).drop_last() =~= pc.take(k as int));
                    assert(pc.take(k + 1).last() == proj.columns@[k as int]@);
                }
                let v = match &proj.columns[k] {
                    ColumnExpr::Column(c) => match find_position(all_columns, c) {
                        Some(p) => row[p].clone(),
                        None => {
                            proof {
                                lemma_items_stuck(pc, cols, row.deep_view(), k + 1);
                                lemma_rows_stuck(proj@, cols, cv, i + 1);
                                assert(is_missing(pc[k as int], cols));
                                lemma_first_missing(pc, cols, k as int);
                                reveal_strlit("Column ");
                                reveal_strlit(" not found");
                            }
                            return Err(crate::text::concat_strings(
                                &crate::text::concat_strings("Column ", c.as_str()),
                                " not found",
                            ));
                        },
                    },
                    ColumnExpr::Aggregate(_) => "?".to_string(),
                };
                let ghost before = pr.deep_view();
                pr.push(v);
                proof {
                    assert(pr.deep_view() =~= before.push(v@));
                }
                k = k + 1;
            }
            proof {
                assert(pc.take(pc.len() as int) =~= pc);
            }
            pr
        };
        let ghost before = rows_deep(out@);
        let ghost pd = pr.deep_view();
        out.push(pr);
        proof {
            assert(rows_deep(out@) =~= before.push(pd));
        }
        i = i + 1;
    }
    proof {
        assert(cv.take(cv.len() as int) =~= cv);
    }
    Ok(out)
}

proof fn lemma_items_stuck(cols: Seq<ColView>, columns: Seq<Seq<char>>, row: Seq<Seq<char>>, k: int)
    requires
        0 <= k <= cols.len(),
        project_items(cols.take(k), columns, row) is None,
    ensures
        project_items(cols, columns, row) is None,
    decreases cols.len() - k,
{
    if k < cols.len() {
        assert(cols.take(k + 1).drop_last() =~= cols.take(k));
        lemma_items_stuck(cols, columns, row, k + 1);
    } else {
        assert(cols.take(k) =~= cols);
    }
}

proof fn lemma_rows_stuck(proj: ProjView, columns: Seq<Seq<char>>, rows: Seq<Seq<Seq<char>>>, k: int)
    requires
        0 <= k <= rows.len(),
        project_rows(proj, columns, rows.take(k)) is None,
    ensures
        project_rows(proj, columns, rows) is None,
    decreases rows.len() - k,
{
    if k < rows.len() {
        assert(rows.take(k + 1).drop_last() =~= rows.take(k));
        lemma_rows_stuck(proj, columns, rows, k + 1);
    } else {
        assert(rows.take(k) =~= rows);
    }
}

proof fn lemma_lookups_stuck(db: DatabaseView, table: Seq<char>, conds: Seq<ConditionView>, used: bool, k: int)
    requires
        0 <= k <= conds.len(),
        !record_lookups(db, table, conds.take(k), used).1,
    ensures
        record_lookups(db, table, conds, used) == record_lookups(db, table, conds.take(k), used),
    decreases conds.len() - k,
{
    if k < conds.len() {
        assert(conds.take(k + 1).drop_last() =~= conds.take(k));
        lemma_lookups_stuck(db, table, conds, used, k + 1);
    } else {
        assert(conds.take(k) =~= conds);
    }
}

/// Runs a query on the one table `tname`.
fn select_one<O: Fn(&str, &str) -> Option<Order>>(
    db: &mut Database,
    tname: &String,
    conditions: &Vec<Condition>,
    proj: &crate::projection::ProjectionInfo,
    query: &SelectQuery,
    order: &O,
) -> (r: Result<ExecutionResult, String>)
    requires
        old(db).wf(),
        is_value_order(*order),
        is_antisymmetric(*order),
    ensures
        final(db).wf(),
        single_select_ok(*order, old(db)@, final(db)@, tname@, conditions_view(conditions@), proj@, *query, r),
{
    let ghost conds = conditions_view(conditions@);
    let i = match db.find_table(tname) {
        Some(i) => i,
        None => {
            return Err("Table not found".to_string());
        },
    };
    let ghost tv = db@.tables[tname@];
    let ghost cand_spec = candidates(*order, tv, conds);
    let (result_rows, scanned, used_index) = {
        let table = &db.tables[i].table;
        assert(table.wf());
        assert(table@ == tv);
        let all_columns = &table.columns;
        proof {
            reveal_strlit("=");
        }
        let use_index = conditions.len() == 1 && str_equal(conditions[0].op.as_str(), "=");
        let indexed = if use_index {
            table.scan_with_index(&conditions[0])
        } else {
            None
        };
        let (cand, scanned, used) = match indexed {
            Some((rows, cnt)) => {
                proof {
                    assert(conds[0] == conditions@[0]@);
                    lemma_index_rows_len(tv, conds[0]);
                    let rs = tv.index_scan(conds[0])->0;
                    assert forall|j: int| 0 <= j < rows@.len() implies (#[trigger] rows@[j]).1@.len() == all_columns@.len() by {
                        assert(rs[j] == (rows@[j].0, rows@[j].1.deep_view()));
                    }
                    assert(rows@.map_values(|q: (u64, &Vec<String>)| q.1.deep_view()) =~= cand_spec.0);
                }
                (rows, cnt, true)
            },
            None => {
                let (rows, cnt) = match table.scan_with_condition(conditions, order) {
                    Ok(x) => x,
                    Err(e) => {
                        return Err(e);
                    },
                };
                proof {
                    if use_index {
                        assert(conds[0] == conditions@[0]@);
                    }
                    let pr = passing_rows(*order, tv, conds);
                    crate::seqs::lemma_filter_members(tv.rows, crate::table_scan::passes(*order, tv.columns, conds));
                    assert forall|j: int| 0 <= j < rows@.len() implies (#[trigger] rows@[j]).1@.len() == all_columns@.len() by {
                        assert(pr[j] == (rows@[j].0, rows@[j].1.deep_view()));
                        assert(tv.rows.contains(pr[j]));
                        let w = choose|w: int| 0 <= w < tv.rows.len() && tv.rows[w] == pr[j];
                        assert(tv.rows[w].1.len() == tv.columns.len());
                    }
                    assert(rows@.map_values(|q: (u64, &Vec<String>)| q.1.deep_view()) =~= cand_spec.0);
                }
                (rows, cnt, false)
            },
        };
        assert(scanned == cand_spec.1 && used == cand_spec.2);
        let mut out = project_candidates(&cand, proj, all_columns)?;
        if !check_sort_fits(proj, all_columns, &query.order_by, &out) {
            return Err("ORDER BY 列超出结果行".to_string());
        }
        apply_order_limit(&mut out, proj, all_columns, &query.order_by, &query.limit, order)?;
        (out, scanned, used)
    };
    let ghost out_rows = rows_deep(result_rows@);
    let ghost out = project_rows(proj@, tv.columns, cand_spec.0);
    let ghost sort = order_spec(query.order_by, proj@, tv.columns);
    let ghost lim = limit_spec(query.limit);
    let mut k: usize = 0;
    proof {
        assert(conds.take(0) =~= Seq::<ConditionView>::empty());
    }
    while k < conditions.len()
        invariant
            k <= conditions@.len(),
            conds == conditions_view(conditions@),
            old(db)@.tables.contains_key(tname@),
            tv == old(db)@.tables[tname@],
            cand_spec == candidates(*order, tv, conds),
            out == project_rows(proj@, tv.columns, cand_spec.0),
            sort == order_spec(query.order_by, proj@, tv.columns),
            lim == limit_spec(query.limit),
            out is Some && sort is Some && lim is Some && sort_fits(proj@, tv.columns, query.order_by, out->0),
            scanned == cand_spec.1,
            used_index == cand_spec.2,
            out_rows == rows_deep(result_rows@),
            ordered_limited(*order, sort->0, lim->0, out->0, out_rows),
            db.wf(),
            record_lookups(old(db)@, tname@, conds.take(k as int), used_index) == (db@, true),
        decreases conditions@.len() - k,
    {
        proof {
            assert(conds.take(k + 1).drop_last() =~= conds.take(k as int));
            assert(conds.take(k + 1).last() == conditions@[k as int]@);
            reveal_strlit("=");
        }
        if str_equal(conditions[k].op.as_str(), "=") {
            let hint = db.stats.record_and_check(tname.as_str(), conditions[k].col.as_str(), used_index);
            match hint {
                Some((t, col)) => {
                    match db.ensure_index(&t, &col) {
                        Ok(()) => {},
                        Err(e) => {
                            proof {
                                lemma_lookups_stuck(old(db)@, tname@, conds, used_index, k + 1);
                            }
                            return Err(e);
                        },
                    }
                },
                None => {},
            }
        }
        k = k + 1;
    }
    proof {
        assert(conds.take(conds.len() as int) =~= conds);
    }
    Ok(ExecutionResult::Select { rows: result_rows, scanned, used_index })
}

/// Runs a query. A query with an aggregate or a GROUP BY groups the rows
/// of its first table; a query on one table reads it (through an index
/// when a lone equality on an indexed column allows) and counts its
/// equality lookups, which can build indexes; a query on several tables
/// joins them.
pub fn execute_select<O: Fn(&str, &str) -> Option<Order>, N: Fn(Numeric, &Vec<String>) -> String>(
    db: &mut Database,
    query: &SelectQuery,
    order: &O,
    numeric: &N,
) -> (r: Result<ExecutionResult, String>)
    requires
        old(db).wf(),
        is_value_order(*order),
        is_antisymmetric(*order),
        is_numeric_fn(*numeric),
    ensures
        final(db).wf(),
        select_ok(*order, *numeric, old(db)@, final(db)@, *query, r),
{
    let core = match &query.body {
        QueryShape::Simple(c) => c,
        QueryShape::Other => {
            return Err("Only simple SELECT".to_string());
        },
    };
    let proj = parse_projection(&core.projection)?;
    let table_joins = parse_from_clause(&core.from)?;
    let conditions = crate::records::read_where(&core.selection)?;
    let has_aggregate = proj.has_aggregate || match &core.group_by {
        GroupClause::Expressions(es) => es.len() > 0,
        GroupClause::All => true,
    };
    proof {
        assert(table_refs_view(table_joins@).len() == table_joins@.len());
    }
    if has_aggregate {
        if table_joins.len() == 0 {
            return Err("聚合查询需要一张表".to_string());
        }
        let tref = table_joins[0].duplicate();
        return execute_aggregate(
            db,
            tref,
            &conditions,
            &proj,
            &core.group_by,
            &core.having,
            &query.order_by,
            &query.limit,
            order,
            numeric,
        );
    }
    if table_joins.len() == 1 {
        return select_one(db, &table_joins[0].name, &conditions, &proj, query, order);
    }
    let (rows, scanned) = nested_loop_join(db, table_joins, &conditions, &proj, order)?;
    let mut result_rows = rows;
    let empty: Vec<String> = Vec::new();
    proof {
        assert(empty.deep_view() =~= Seq::<Seq<char>>::empty());
    }
    if !check_sort_fits(&proj, &empty, &query.order_by, &result_rows) {
        return Err("ORDER BY 列超出结果行".to_string());
    }
    apply_order_limit(&mut result_rows, &proj, &empty, &query.order_by, &query.limit, order)?;
    Ok(ExecutionResult::Select { rows: result_rows, scanned, used_index: false })
}

} // verus!
