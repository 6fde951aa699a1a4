//! Queries over several tables: the FROM list, the cartesian product of the
//! tables' rows, and the join conditions.
use vstd::prelude::*;
use crate::condition::{conditions_view, Condition, ConditionView};
use crate::database::Database;
use crate::projection::{AggView, ColView, ColumnExpr, ProjView, ProjectionInfo, col_views};
use crate::sql::{FromItem, FromSource};
use crate::table::TableView;
use crate::text::{copy_strings, find_char, find_position, first_index_of, lemma_position_facts, position};
use crate::value::{compare_vals, is_value_order, order_of, str_equal, Order};

verus! {

broadcast use vstd::string::group_string_axioms;

/// A table of the FROM list, with its alias.
#[derive(Debug)]
pub struct TableRef {
    pub name: String,
    pub alias: Option<String>,
}

/// The contents of a `TableRef`.
pub struct TableRefView {
    pub name: Seq<char>,
    pub alias: Option<Seq<char>>,
}

impl View for TableRef {
    type V = TableRefView;

    open spec fn view(&self) -> TableRefView {
        TableRefView {
            name: self.name@,
            alias: match self.alias {
                Some(a) => Some(a@),
                None => None,
            },
        }
    }
}

impl TableRef {
    /// A copy of this reference.
    pub fn duplicate(&self) -> (r: TableRef)
        ensures
            r@ == self@,
    {
        TableRef {
            name: self.name.clone(),
            alias: match &self.alias {
                Some(a) => Some(a.clone()),
                None => None,
            },
        }
    }
}

pub open spec fn table_refs_view(ts: Seq<TableRef>) -> Seq<TableRefView> {
    ts.map_values(|t: TableRef| t@)
}

/// The tables of a FROM list: each item must be a plain table without an
/// explicit join.
pub open spec fn from_tables(from: Seq<FromItem>) -> Option<Seq<TableRefView>>
    decreases from.len(),
{
    if from.len() == 0 {
        Some(Seq::empty())
    } else {
        match from_tables(from.drop_last()) {
            None => None,
            Some(ts) => match from.last().relation {
                FromSource::Table { name, alias } => if from.last().joins == 0 {
                    Some(
                        ts.push(
                            TableRefView {
                                name: name@,
                                alias: match alias {
                                    Some(a) => Some(a@),
                                    None => None,
                                },
                            },
                        ),
                    )
                } else {
                    None
                },
                FromSource::Other => None,
            },
        }
    }
}

/// The text of the error reading the FROM list gives, where it gives one:
/// that of its first item that is no plain table.
pub open spec fn from_error(from: Seq<FromItem>) -> Seq<char>
    decreases from.len(),
{
    if from.len() == 0 {
        Seq::empty()
    } else if from[0].relation is Other {
        "仅支持简单表名"@
    } else if from[0].joins != 0 {
        "暂不支持显式 JOIN，请使用逗号分隔表名"@
    } else {
        from_error(from.drop_first())
    }
}

/// Reads the FROM list.
pub fn parse_from_clause(from: &Vec<FromItem>) -> (r: Result<Vec<TableRef>, String>)
    ensures
        match r {
            Ok(ts) => from_tables(from@) == Some(table_refs_view(ts@)),
            Err(e) => from_tables(from@) is None && e@ == from_error(from@),
        },
{
    let mut tables: Vec<TableRef> = Vec::new();
    let mut i: usize = 0;
    proof {
        assert(from@.skip(0) =~= from@);
        assert(from@.take(0) =~= Seq::<FromItem>::empty());
        assert(table_refs_view(tables@) =~= Seq::<TableRefView>::empty());
    }
    while i < from.len()
        invariant
            i <= from@.len(),
            from_tables(from@.take(i as int)) == Some(table_refs_view(tables@)),
            from_error(from@) == from_error(from@.skip(i as int)),
        decreases from@.len() - i,
    {
        proof {
            assert(from@.take(i + 1).drop_last() =~= from@.take(i as int));
            assert(from@.take(i + 1).last() == from@[i as int]);
        }
        match &from[i].relation {
            FromSource::Table { name, alias } => {
                let t = TableRef {
                    name: name.clone(),
                    alias: match alias {
                        Some(a) => Some(a.clone()),
                        None => None,
                    },
                };
                let ghost before = table_refs_view(tables@);
                tables.push(t);
                proof {
                    assert(table_refs_view(tables@) =~= before.push(t@));
                }
            },
            FromSource::Other => {
                proof {
                    lemma_from_tables_stuck(from@, i as int);
                }
                return Err("仅支持简单表名".to_string());
            },
        }
        if from[i].joins != 0 {
            proof {
                lemma_from_tables_stuck(from@, i as int);
            }
            return Err("暂不支持显式 JOIN，请使用逗号分隔表名".to_string());
        }
        proof {
            assert(from@.skip(i as int).drop_first() =~= from@.skip(i + 1));
        }
        i = i + 1;
    }
    proof {
        assert(from@.take(from@.len() as int) =~= from@);
    }
    Ok(tables)
}

/// Once an item of the FROM list is refused, the whole list is.
proof fn lemma_from_tables_stuck(from: Seq<FromItem>, i: int)
    requires
        0 <= i < from.len(),
        from_tables(from.take(i + 1)) is None,
    ensures
        from_tables(from) is None,
    decreases from.len() - i,
{
    if i + 1 < from.len() {
        assert(from.take(i + 2).drop_last() =~= from.take(i + 1));
        lemma_from_tables_stuck(from, i + 1);
    } else {
        assert(from.take(i + 1) =~= from);
    }
}

/// The rows of several tables combined in every way: each combination
/// takes one row of each table, the first table varying slowest.
pub open spec fn cartesian<A>(data: Seq<Seq<A>>) -> Seq<Seq<A>>
    decreases data.len(),
{
    if data.len() == 0 {
        seq![Seq::empty()]
    } else {
        extend(cartesian(data.drop_last()), data.last())
    }
}

/// Each combination of `res` followed by each item of `list`, in turn.
pub open spec fn extend<A>(res: Seq<Seq<A>>, list: Seq<A>) -> Seq<Seq<A>>
    decreases res.len(),
{
    if res.len() == 0 {
        Seq::empty()
    } else {
        extend(res.drop_last(), list) + list.map_values(|x: A| res.last().push(x))
    }
}

/// A copy of a list of copyable items.
fn copy_items<T: Copy>(v: &Vec<T>) -> (r: Vec<T>)
    ensures
        r@ == v@,
{
    let mut r: Vec<T> = Vec::new();
    let mut i: usize = 0;
    while i < v.len()
        invariant
            i <= v@.len(),
            r@ == v@.take(i as int),
        decreases v@.len() - i,
    {
        r.push(v[i]);
        proof {
            assert(v@.take(i + 1) =~= v@.take(i as int).push(v@[i as int]));
        }
        i = i + 1;
    }
    proof {
        assert(v@.take(v@.len() as int) =~= v@);
    }
    r
}

pub open spec fn vecs_view<T>(v: Seq<Vec<T>>) -> Seq<Seq<T>> {
    v.map_values(|x: Vec<T>| x@)
}

/// Every combination of one item of each list, the first list varying
/// slowest.
pub fn cartesian_product<T: Copy>(data: &Vec<Vec<T>>) -> (r: Vec<Vec<T>>)
    ensures
        vecs_view(r@) == cartesian(vecs_view(data@)),
{
    let ghost dv = vecs_view(data@);
    let mut result: Vec<Vec<T>> = vec![Vec::new()];
    proof {
        assert(dv.take(0) =~= Seq::<Seq<T>>::empty());
        assert(vecs_view(result@) =~= seq![Seq::<T>::empty()]);
    }
    let mut d: usize = 0;
    while d < data.len()
        invariant
            d <= data@.len(),
            dv == vecs_view(data@),
            vecs_view(result@) == cartesian(dv.take(d as int)),
        decreases data@.len() - d,
    {
        let list = &data[d];
        let ghost rv = vecs_view(result@);
        let ghost lv = list@;
        let mut new_result: Vec<Vec<T>> = Vec::new();
        let mut a: usize = 0;
        proof {
            assert(rv.take(0) =~= Seq::<Seq<T>>::empty());
            assert(vecs_view(new_result@) =~= Seq::<Seq<T>>::empty());
        }
        while a < result.len()
            invariant
                a <= result@.len(),
                rv == vecs_view(result@),
                lv == list@,
                vecs_view(new_result@) == extend(rv.take(a as int), lv),
            decreases result@.len() - a,
        {
            let ghost base = vecs_view(new_result@);
            let mut b: usize = 0;
            proof {
                assert(lv.take(0).map_values(|x: T| rv[a as int].push(x)) =~= Seq::<Seq<T>>::empty());
                assert(base + Seq::<Seq<T>>::empty() =~= base);
            }
            while b < list.len()
                invariant
                    a < result@.len(),
                    b <= list@.len(),
                    rv == vecs_view(result@),
                    lv == list@,
                    vecs_view(new_result@) == base + lv.take(b as int).map_values(|x: T| rv[a as int].push(x)),
                decreases list@.len() - b,
            {
                let mut comb = copy_items(&result[a]);
                comb.push(list[b]);
                let ghost before = vecs_view(new_result@);
                let ghost cv = comb@;
                new_result.push(comb);
                proof {
                    assert(cv == rv[a as int].push(lv[b as int]));
                    assert(lv.take(b + 1).map_values(|x: T| rv[a as int].push(x)) =~= lv.take(b as int).map_values(
                        |x: T| rv[a as int].push(x),
                    ).push(cv));
                    assert(vecs_view(new_result@) =~= before.push(cv));
                }
                b = b + 1;
            }
            proof {
                assert(lv.take(lv.len() as int) =~= lv);
                assert(rv.take(a + 1).drop_last() =~= rv.take(a as int));
                assert(rv.take(a + 1).last() == rv[a as int]);
            }
            a = a + 1;
        }
        proof {
            assert(rv.take(rv.len() as int) =~= rv);
            assert(dv.take(d + 1).drop_last() =~= dv.take(d as int));
            assert(dv.take(d + 1).last() == lv);
        }
        result = new_result;
        d = d + 1;
    }
    proof {
        assert(dv.take(dv.len() as int) =~= dv);
    }
    result
}

proof fn lemma_extend_map<A, B>(res: Seq<Seq<A>>, list: Seq<A>, f: spec_fn(A) -> B)
    ensures
        extend(res.map_values(|c: Seq<A>| c.map_values(f)), list.map_values(f)) == extend(res, list).map_values(
            |c: Seq<A>| c.map_values(f),
        ),
    decreases res.len(),
{
    let cm = |c: Seq<A>| c.map_values(f);
    if res.len() > 0 {
        lemma_extend_map(res.drop_last(), list, f);
        let rm = res.map_values(cm);
        assert(rm.drop_last() =~= res.drop_last().map_values(cm));
        assert(rm.last() == res.last().map_values(f));
        let lm = list.map_values(f);
        let s1 = lm.map_values(|y: B| rm.last().push(y));
        let s2 = list.map_values(|x: A| res.last().push(x)).map_values(cm);
        assert(s1 =~= s2) by {
            assert forall|k: int| 0 <= k < list.len() implies #[trigger] s1[k] == s2[k] by {
                assert(res.last().push(list[k]).map_values(f) =~= res.last().map_values(f).push(f(list[k])));
            }
        }
        let e0 = extend(res.drop_last(), list);
        let tail = list.map_values(|x: A| res.last().push(x));
        assert((e0 + tail).map_values(cm) =~= e0.map_values(cm) + tail.map_values(cm));
    }
}

/// Combining first and then reading each row gives what reading each row
/// and then combining gives.
proof fn lemma_cartesian_map<A, B>(data: Seq<Seq<A>>, f: spec_fn(A) -> B)
    ensures
        cartesian(data.map_values(|l: Seq<A>| l.map_values(f))) == cartesian(data).map_values(
            |c: Seq<A>| c.map_values(f),
        ),
    decreases data.len(),
{
    let lm = |l: Seq<A>| l.map_values(f);
    if data.len() == 0 {
        assert(data.map_values(lm) =~= Seq::<Seq<B>>::empty());
        assert(Seq::<A>::empty().map_values(f) =~= Seq::<B>::empty());
        assert(seq![Seq::<A>::empty()].map_values(lm)[0] == Seq::<A>::empty().map_values(f));
        assert(seq![Seq::<A>::empty()].map_values(lm) =~= seq![Seq::<B>::empty()]);
    } else {
        lemma_cartesian_map(data.drop_last(), f);
        assert(data.map_values(lm).drop_last() =~= data.drop_last().map_values(lm));
        assert(data.map_values(lm).last() == data.last().map_values(f));
        lemma_extend_map(cartesian(data.drop_last()), data.last(), f);
    }
}

/// The table information of a join, as values.
pub open spec fn info_view(info: Seq<(Option<String>, Vec<String>)>) -> Seq<(Option<Seq<char>>, Seq<Seq<char>>)> {
    info.map_values(
        |t: (Option<String>, Vec<String>)|
            (
                match t.0 {
                    Some(a) => Some(a@),
                    None => None,
                },
                t.1.deep_view(),
            ),
    )
}

/// The first table with the alias `prefix`.
pub open spec fn alias_index(info: Seq<(Option<Seq<char>>, Seq<Seq<char>>)>, prefix: Seq<char>) -> Option<int>
    decreases info.len(),
{
    if info.len() == 0 {
        None
    } else {
        match alias_index(info.drop_last(), prefix) {
            Some(i) => Some(i),
            None => if info.last().0 == Some(prefix) {
                Some(info.len() - 1)
            } else {
                None
            },
        }
    }
}

/// The tables that have a column `name`, in order.
pub open spec fn owners(info: Seq<(Option<Seq<char>>, Seq<Seq<char>>)>, name: Seq<char>) -> Seq<int>
    decreases info.len(),
{
    if info.len() == 0 {
        Seq::empty()
    } else {
        let o = owners(info.drop_last(), name);
        if info.last().1.contains(name) {
            o.push(info.len() - 1)
        } else {
            o
        }
    }
}

/// The table and column a name of a join refers to: `alias.col` names the
/// first table with that alias; a plain name must be a column of exactly
/// one table.
pub open spec fn resolved(full: Seq<char>, info: Seq<(Option<Seq<char>>, Seq<Seq<char>>)>) -> Option<(int, Seq<char>)> {
    let d = first_index_of(full, '.');
    if d >= 0 {
        match alias_index(info, full.take(d)) {
            Some(i) => Some((i, full.skip(d + 1))),
            None => None,
        }
    } else {
        let o = owners(info, full);
        if o.len() == 1 {
            Some((o[0], full))
        } else {
            None
        }
    }
}

/// The text of the error finding what a name of a join refers to gives,
/// where it gives one.
pub open spec fn resolve_error(full: Seq<char>, info: Seq<(Option<Seq<char>>, Seq<Seq<char>>)>) -> Seq<char> {
    if first_index_of(full, '.') >= 0 {
        "无法解析列 '"@ + full + "'"@
    } else if owners(info, full).len() == 0 {
        "列 '"@ + full + "' 不存在"@
    } else {
        "列 '"@ + full + "' 不明确"@
    }
}

/// Finds the table and column a name of a join refers to.
pub fn resolve_column(full_name: &str, table_info: &Vec<(Option<String>, Vec<String>)>) -> (r: Result<(usize, String), String>)
    ensures
        match r {
            Ok((i, c)) => resolved(full_name@, info_view(table_info@)) == Some((i as int, c@)) && i < table_info@.len(),
            Err(e) => resolved(full_name@, info_view(table_info@)) is None && e@ == resolve_error(
                full_name@,
                info_view(table_info@),
            ),
        },
{
    let ghost iv = info_view(table_info@);
    let n = full_name.unicode_len();
    match find_char(full_name, '.') {
        Some(d) => {
            let prefix = full_name.substring_char(0, d);
            let col = full_name.substring_char(d + 1, n);
            proof {
                assert(prefix@ =~= full_name@.take(d as int));
                assert(col@ =~= full_name@.skip(d + 1));
                assert(iv.take(0) =~= Seq::<(Option<Seq<char>>, Seq<Seq<char>>)>::empty());
            }
            let mut idx: usize = 0;
            while idx < table_info.len()
                invariant
                    idx <= table_info@.len(),
                    iv == info_view(table_info@),
                    d as int == first_index_of(full_name@, '.'),
                    prefix@ == full_name@.take(d as int),
                    col@ == full_name@.skip(d + 1),
                    alias_index(iv.take(idx as int), prefix@) is None,
                decreases table_info@.len() - idx,
            {
                proof {
                    assert(iv.take(idx + 1).drop_last() =~= iv.take(idx as int));
                    assert(iv.take(idx + 1).last() == iv[idx as int]);
                }
                match &table_info[idx].0 {
                    Some(a) => {
                        if str_equal(a.as_str(), prefix) {
                            proof {
                                lemma_alias_prefix(iv, prefix@, idx as int);
                            }
                            return Ok((idx, col.to_string()));
                        }
                    },
                    None => {},
                }
                proof {
                    lemma_alias_step(iv, prefix@, idx as int);
                }
                idx = idx + 1;
            }
            proof {
                assert(iv.take(iv.len() as int) =~= iv);
            }
            Err(crate::text::concat_strings(&crate::text::concat_strings("无法解析列 '", full_name), "'"))
        },
        None => {
            let name = full_name.to_string();
            let mut found: Option<usize> = None;
            let mut idx: usize = 0;
            proof {
                assert(iv.take(0) =~= Seq::<(Option<Seq<char>>, Seq<Seq<char>>)>::empty());
            }
            while idx < table_info.len()
                invariant
                    idx <= table_info@.len(),
                    iv == info_view(table_info@),
                    name@ == full_name@,
                    first_index_of(full_name@, '.') == -1,
                    match found {
                        None => owners(iv.take(idx as int), name@).len() == 0,
                        Some(f) => owners(iv.take(idx as int), name@) == seq![f as int] && f < idx,
                    },
                decreases table_info@.len() - idx,
            {
                proof {
                    assert(iv.take(idx + 1).drop_last() =~= iv.take(idx as int));
                    assert(iv.take(idx + 1).last() == iv[idx as int]);
                    lemma_position_facts(table_info@[idx as int].1.deep_view(), name@);
                }
                if find_position(&table_info[idx].1, &name).is_some() {
                    if found.is_some() {
                        proof {
                            lemma_owners_grow(iv, name@, idx + 1);
                        }
                        return Err(crate::text::concat_strings(&crate::text::concat_strings("列 '", full_name), "' 不明确"));
                    }
                    found = Some(idx);
                }
                idx = idx + 1;
            }
            proof {
                assert(iv.take(iv.len() as int) =~= iv);
            }
            match found {
                Some(f) => Ok((f, name)),
                None => Err(crate::text::concat_strings(&crate::text::concat_strings("列 '", full_name), "' 不存在")),
            }
        },
    }
}

/// One more table with another alias leaves the first match as it was.
proof fn lemma_alias_step(iv: Seq<(Option<Seq<char>>, Seq<Seq<char>>)>, prefix: Seq<char>, idx: int)
    requires
        0 <= idx < iv.len(),
        alias_index(iv.take(idx), prefix) is None,
        iv[idx].0 != Some(prefix),
    ensures
        alias_index(iv.take(idx + 1), prefix) is None,
{
    assert(iv.take(idx + 1).drop_last() =~= iv.take(idx));
    assert(iv.take(idx + 1).last() == iv[idx]);
}

/// The first table with the alias stays the first as the list grows.
proof fn lemma_alias_prefix(iv: Seq<(Option<Seq<char>>, Seq<Seq<char>>)>, prefix: Seq<char>, idx: int)
    requires
        0 <= idx < iv.len(),
        alias_index(iv.take(idx), prefix) is None,
        iv[idx].0 == Some(prefix),
    ensures
        alias_index(iv, prefix) == Some(idx),
    decreases iv.len() - idx,
{
    if idx + 1 < iv.len() {
        assert(iv.drop_last().take(idx) =~= iv.take(idx));
        assert(iv.drop_last()[idx] == iv[idx]);
        lemma_alias_prefix(iv.drop_last(), prefix, idx);
    } else {
        assert(iv.drop_last() =~= iv.take(idx));
    }
}

/// Owners found in a prefix stay owners of the whole list.
proof fn lemma_owners_grow(iv: Seq<(Option<Seq<char>>, Seq<Seq<char>>)>, name: Seq<char>, k: int)
    requires
        0 <= k <= iv.len(),
        owners(iv.take(k), name).len() >= 2,
    ensures
        owners(iv, name).len() >= 2,
    decreases iv.len() - k,
{
    if k < iv.len() {
        assert(iv.take(k + 1).drop_last() =~= iv.take(k));
        lemma_owners_grow(iv, name, k + 1);
    } else {
        assert(iv.take(k) =~= iv);
    }
}

/// The value a name of a join reads in a combination of rows.
pub open spec fn cell(
    rows: Seq<Seq<Seq<char>>>,
    info: Seq<(Option<Seq<char>>, Seq<Seq<char>>)>,
    full: Seq<char>,
) -> Option<Seq<char>> {
    match resolved(full, info) {
        None => None,
        Some((t, col)) => match position(info[t].1, col) {
            None => None,
            Some(p) => Some(rows[t][p]),
        },
    }
}

/// Whether the operator `op` accepts a comparison outcome in a join: an
/// undecided outcome satisfies only `!=`; an unknown operator is an error.
pub open spec fn join_op_holds(op: Seq<char>, o: Option<Order>) -> Option<bool> {
    if op == "="@ {
        Some(o == Some(Order::Equal))
    } else if op == "!="@ {
        Some(o != Some(Order::Equal))
    } else if op == "<"@ {
        Some(o == Some(Order::Less))
    } else if op == "<="@ {
        Some(o == Some(Order::Less) || o == Some(Order::Equal))
    } else if op == ">"@ {
        Some(o == Some(Order::Greater))
    } else if op == ">="@ {
        Some(o == Some(Order::Greater) || o == Some(Order::Equal))
    } else {
        None
    }
}

/// Whether a combination of rows satisfies one join condition.
pub open spec fn join_cond_holds<O: Fn(&str, &str) -> Option<Order>>(
    order: O,
    rows: Seq<Seq<Seq<char>>>,
    info: Seq<(Option<Seq<char>>, Seq<Seq<char>>)>,
    c: ConditionView,
) -> Option<bool> {
    match cell(rows, info, c.col) {
        None => None,
        Some(l) => {
            let r = if c.rhs_is_column {
                cell(rows, info, c.val)
            } else {
                Some(c.val)
            };
            match r {
                None => None,
                Some(v) => join_op_holds(c.op, order_of(order, l, v)),
            }
        },
    }
}

/// Whether a combination of rows satisfies all join conditions, checked in
/// order; `None` for an error before the first that fails.
pub open spec fn join_passes<O: Fn(&str, &str) -> Option<Order>>(
    order: O,
    rows: Seq<Seq<Seq<char>>>,
    info: Seq<(Option<Seq<char>>, Seq<Seq<char>>)>,
    conds: Seq<ConditionView>,
) -> Option<bool>
    decreases conds.len(),
{
    if conds.len() == 0 {
        Some(true)
    } else {
        match join_cond_holds(order, rows, info, conds[0]) {
            None => None,
            Some(false) => Some(false),
            Some(true) => join_passes(order, rows, info, conds.drop_first()),
        }
    }
}

/// The text of the error reading a name of a join in a combination gives,
/// where it gives one.
pub open spec fn cell_error(info: Seq<(Option<Seq<char>>, Seq<Seq<char>>)>, full: Seq<char>) -> Seq<char> {
    if resolved(full, info) is None {
        resolve_error(full, info)
    } else {
        "列 '"@ + full + "' 不存在"@
    }
}

/// The text of the error checking the join conditions on a combination
/// gives, where it gives one: that of the first condition that cannot be
/// checked.
pub open spec fn join_passes_error<O: Fn(&str, &str) -> Option<Order>>(
    order: O,
    rows: Seq<Seq<Seq<char>>>,
    info: Seq<(Option<Seq<char>>, Seq<Seq<char>>)>,
    conds: Seq<ConditionView>,
) -> Seq<char>
    decreases conds.len(),
{
    if conds.len() == 0 {
        Seq::empty()
    } else {
        let c = conds[0];
        match join_cond_holds(order, rows, info, c) {
            None => if cell(rows, info, c.col) is None {
                cell_error(info, c.col)
            } else if c.rhs_is_column && cell(rows, info, c.val) is None {
                cell_error(info, c.val)
            } else {
                "不支持的操作符"@
            },
            Some(false) => Seq::empty(),
            Some(true) => join_passes_error(order, rows, info, conds.drop_first()),
        }
    }
}

/// The rows of a combination reach the table information: a row for each
/// table, each at least as long as the table's columns.
pub open spec fn rows_fit(rows: Seq<Seq<Seq<char>>>, info: Seq<(Option<Seq<char>>, Seq<Seq<char>>)>) -> bool {
    &&& rows.len() >= info.len()
    &&& forall|t: int| 0 <= t < info.len() ==> (#[trigger] rows[t]).len() >= info[t].1.len()
}

/// Reads the value a name of a join refers to.
fn read_cell(
    rows: &Vec<&Vec<String>>,
    table_info: &Vec<(Option<String>, Vec<String>)>,
    full: &str,
) -> (r: Result<String, String>)
    requires
        rows_fit(crate::aggregate::refs_deep(rows@), info_view(table_info@)),
    ensures
        match r {
            Ok(v) => cell(crate::aggregate::refs_deep(rows@), info_view(table_info@), full@) == Some(v@),
            Err(e) => cell(crate::aggregate::refs_deep(rows@), info_view(table_info@), full@) is None && e@ == cell_error(
                info_view(table_info@),
                full@,
            ),
        },
{
    let (t, col) = resolve_column(full, table_info)?;
    proof {
        assert(info_view(table_info@)[t as int].1 == table_info@[t as int].1.deep_view());
    }
    match find_position(&table_info[t].1, &col) {
        Some(p) => {
            proof {
                crate::text::lemma_position_facts(table_info@[t as int].1.deep_view(), col@);
                assert(crate::aggregate::refs_deep(rows@)[t as int] == rows@[t as int].deep_view());
            }
            Ok(rows[t][p].clone())
        },
        None => Err(crate::text::concat_strings(&crate::text::concat_strings("列 '", full), "' 不存在")),
    }
}

/// Checks the join conditions on one combination of rows.
pub fn check_join_condition<O: Fn(&str, &str) -> Option<Order>>(
    rows: &Vec<&Vec<String>>,
    table_info: &Vec<(Option<String>, Vec<String>)>,
    conditions: &Vec<Condition>,
    order: &O,
) -> (r: Result<bool, String>)
    requires
        is_value_order(*order),
        rows_fit(crate::aggregate::refs_deep(rows@), info_view(table_info@)),
    ensures
        match r {
            Ok(b) => join_passes(*order, crate::aggregate::refs_deep(rows@), info_view(table_info@), conditions_view(conditions@))
                == Some(b),
            Err(e) => join_passes(*order, crate::aggregate::refs_deep(rows@), info_view(table_info@), conditions_view(conditions@))
                is None && e@ == join_passes_error(
                *order,
                crate::aggregate::refs_deep(rows@),
                info_view(table_info@),
                conditions_view(conditions@),
            ),
        },
{
    let ghost rv = crate::aggregate::refs_deep(rows@);
    let ghost iv = info_view(table_info@);
    let ghost cv = conditions_view(conditions@);
    proof {
        reveal_strlit("=");
        reveal_strlit("!=");
        reveal_strlit("<");
        reveal_strlit("<=");
        reveal_strlit(">");
        reveal_strlit(">=");
        assert(cv.skip(0) =~= cv);
    }
    let mut k: usize = 0;
    while k < conditions.len()
        invariant
            k <= conditions@.len(),
            rv == crate::aggregate::refs_deep(rows@),
            iv == info_view(table_info@),
            cv == conditions_view(conditions@),
            is_value_order(*order),
            rows_fit(rv, iv),
            join_passes(*order, rv, iv, cv) == join_passes(*order, rv, iv, cv.skip(k as int)),
            join_passes_error(*order, rv, iv, cv) == join_passes_error(*order, rv, iv, cv.skip(k as int)),
        decreases conditions@.len() - k,
    {
        proof {
            assert(cv.skip(k as int)[0] == conditions@[k as int]@);
            assert(cv.skip(k as int).drop_first() =~= cv.skip(k + 1));
        }
        let cond = &conditions[k];
        let left = read_cell(rows, table_info, cond.col.as_str())?;
        let right = if cond.rhs_is_column {
            read_cell(rows, table_info, cond.val.as_str())?
        } else {
            cond.val.clone()
        };
        let o = compare_vals(order, left.as_str(), right.as_str());
        let op = cond.op.as_str();
        let ok = if str_equal(op, "=") {
            o == Some(Order::Equal)
        } else if str_equal(op, "!=") {
            o != Some(Order::Equal)
        } else if str_equal(op, "<") {
            o == Some(Order::Less)
        } else if str_equal(op, "<=") {
            o == Some(Order::Less) || o == Some(Order::Equal)
        } else if str_equal(op, ">") {
            o == Some(Order::Greater)
        } else if str_equal(op, ">=") {
            o == Some(Order::Greater) || o == Some(Order::Equal)
        } else {
            return Err("不支持的操作符".to_string());
        };
        if !ok {
            return Ok(false);
        }
        k = k + 1;
    }
    proof {
        assert(cv.skip(k as int) =~= Seq::<ConditionView>::empty());
    }
    Ok(true)
}

/// The rows of a combination one after the other.
pub open spec fn concat_rows(rows: Seq<Seq<Seq<char>>>) -> Seq<Seq<char>>
    decreases rows.len(),
{
    if rows.len() == 0 {
        Seq::empty()
    } else {
        concat_rows(rows.drop_last()) + rows.last()
    }
}

/// The values of the listed columns in a combination; `None` when a name
/// cannot be resolved or an item is an aggregate.
pub open spec fn join_items(
    rows: Seq<Seq<Seq<char>>>,
    info: Seq<(Option<Seq<char>>, Seq<Seq<char>>)>,
    cols: Seq<ColView>,
) -> Option<Seq<Seq<char>>>
    decreases cols.len(),
{
    if cols.len() == 0 {
        Some(Seq::empty())
    } else {
        match (join_items(rows, info, cols.drop_last()), cols.last()) {
            (Some(a), ColView::Column(full)) => match cell(rows, info, full) {
                Some(v) => Some(a.push(v)),
                None => None,
            },
            _ => None,
        }
    }
}

/// The output row of a combination: all its values for `*`, else the
/// listed columns.
pub open spec fn join_row(
    rows: Seq<Seq<Seq<char>>>,
    info: Seq<(Option<Seq<char>>, Seq<Seq<char>>)>,
    proj: ProjView,
) -> Option<Seq<Seq<char>>> {
    if proj.is_wildcard {
        Some(concat_rows(rows))
    } else {
        join_items(rows, info, proj.columns)
    }
}

/// Whether a listed item cannot be read in a combination.
pub open spec fn join_item_fails(
    rows: Seq<Seq<Seq<char>>>,
    info: Seq<(Option<Seq<char>>, Seq<Seq<char>>)>,
    c: ColView,
) -> bool {
    match c {
        ColView::Column(full) => cell(rows, info, full) is None,
        ColView::Aggregate(_) => true,
    }
}

/// The text of the error reading the listed items of a combination gives,
/// where it gives one: that of the first item that cannot be read.
pub open spec fn join_items_error(
    rows: Seq<Seq<Seq<char>>>,
    info: Seq<(Option<Seq<char>>, Seq<Seq<char>>)>,
    cols: Seq<ColView>,
) -> Seq<char>
    decreases cols.len(),
{
    if cols.len() == 0 {
        Seq::empty()
    } else if join_item_fails(rows, info, cols[0]) {
        match cols[0] {
            ColView::Column(full) => cell_error(info, full),
            ColView::Aggregate(_) => "JOIN 暂不支持聚合"@,
        }
    } else {
        join_items_error(rows, info, cols.drop_first())
    }
}

proof fn lemma_join_items_error(
    rows: Seq<Seq<Seq<char>>>,
    info: Seq<(Option<Seq<char>>, Seq<Seq<char>>)>,
    cols: Seq<ColView>,
    k: int,
)
    requires
        0 <= k < cols.len(),
        forall|j: int| 0 <= j < k ==> !join_item_fails(rows, info, #[trigger] cols[j]),
        join_item_fails(rows, info, cols[k]),
    ensures
        join_items_error(rows, info, cols) == join_items_error(rows, info, cols.skip(k)),
    decreases k,
{
    if k > 0 {
        assert(!join_item_fails(rows, info, cols[0]));
        let rest = cols.drop_first();
        assert forall|j: int| 0 <= j < k - 1 implies !join_item_fails(rows, info, #[trigger] rest[j]) by {
            assert(rest[j] == cols[j + 1]);
        }
        lemma_join_items_error(rows, info, rest, k - 1);
        assert(rest.skip(k - 1) =~= cols.skip(k));
    } else {
        assert(cols.skip(0) =~= cols);
    }
}

/// Once an item fails, the whole row does.
proof fn lemma_join_items_stuck(
    rows: Seq<Seq<Seq<char>>>,
    info: Seq<(Option<Seq<char>>, Seq<Seq<char>>)>,
    cols: Seq<ColView>,
    k: int,
)
    requires
        0 <= k <= cols.len(),
        join_items(rows, info, cols.take(k)) is None,
    ensures
        join_items(rows, info, cols) is None,
    decreases cols.len() - k,
{
    if k < cols.len() {
        assert(cols.take(k + 1).drop_last() =~= cols.take(k));
        lemma_join_items_stuck(rows, info, cols, k + 1);
    } else {
        assert(cols.take(k) =~= cols);
    }
}

/// Builds the output row of a combination of rows.
pub fn build_join_output(
    rows: &Vec<&Vec<String>>,
    table_info: &Vec<(Option<String>, Vec<String>)>,
    proj: &ProjectionInfo,
) -> (r: Result<Vec<String>, String>)
    requires
        rows_fit(crate::aggregate::refs_deep(rows@), info_view(table_info@)),
    ensures
        match r {
            Ok(v) => join_row(crate::aggregate::refs_deep(rows@), info_view(table_info@), proj@) == Some(v.deep_view()),
            Err(e) => join_row(crate::aggregate::refs_deep(rows@), info_view(table_info@), proj@) is None && e@
                == join_items_error(crate::aggregate::refs_deep(rows@), info_view(table_info@), proj@.columns),
        },
{
    let ghost rv = crate::aggregate::refs_deep(rows@);
    let ghost iv = info_view(table_info@);
    let mut out: Vec<String> = Vec::new();
    if proj.is_wildcard {
        let mut t: usize = 0;
        proof {
            assert(rv.take(0) =~= Seq::<Seq<Seq<char>>>::empty());
            assert(out.deep_view() =~= Seq::<Seq<char>>::empty());
        }
        while t < rows.len()
            invariant
                t <= rows@.len(),
                rv == crate::aggregate::refs_deep(rows@),
                out.deep_view() == concat_rows(rv.take(t as int)),
            decreases rows@.len() - t,
        {
            let row = rows[t];
            let ghost before = out.deep_view();
            let mut c: usize = 0;
            while c < row.len()
                invariant
                    c <= row@.len(),
                    out.deep_view() == before + row.deep_view().take(c as int),
                decreases row@.len() - c,
            {
                out.push(row[c].clone());
                proof {
                    assert(row.deep_view().take(c + 1) =~= row.deep_view().take(c as int).push(row@[c as int]@));
                    assert(out.deep_view() =~= (before + row.deep_view().take(c as int)).push(row@[c as int]@));
                }
                c = c + 1;
            }
            proof {
                assert(row.deep_view().take(row@.len() as int) =~= row.deep_view());
                assert(rv.take(t + 1).drop_last() =~= rv.take(t as int));
                assert(rv.take(t + 1).last() == row.deep_view());
            }
            t = t + 1;
        }
        proof {
            assert(rv.take(rows@.len() as int) =~= rv);
        }
        return Ok(out);
    }
    let ghost cv = proj@.columns;
    let mut k: usize = 0;
    proof {
        assert(cv.take(0) =~= Seq::<ColView>::empty());
        assert(out.deep_view() =~= Seq::<Seq<char>>::empty());
    }
    while k < proj.columns.len()
        invariant
            k <= proj.columns@.len(),
            cv == proj@.columns,
            cv == col_views(proj.columns@),
            !proj.is_wildcard,
            rv == crate::aggregate::refs_deep(rows@),
            iv == info_view(table_info@),
            rows_fit(rv, iv),
            join_items(rv, iv, cv.take(k as int)) == Some(out.deep_view()),
            forall|j: int| 0 <= j < k ==> !join_item_fails(rv, iv, #[trigger] cv[j]),
        decreases proj.columns@.len() - k,
    {
        proof {
            assert(cv.take(k + 1).drop_last() =~= cv.take(k as int));
            assert(cv.take(k + 1).last() == proj.columns@[k as int]@);
        }
        match &proj.columns[k] {
            ColumnExpr::Column(full) => {
                match read_cell(rows, table_info, full.as_str()) {
                    Ok(v) => {
                        let ghost before = out.deep_view();
                        out.push(v);
                        proof {
                            assert(out.deep_view() =~= before.push(v@));
                        }
                    },
                    Err(e) => {
                        proof {
                            lemma_join_items_stuck(rv, iv, cv, k + 1);
                            lemma_join_items_error(rv, iv, cv, k as int);
                        }
                        return Err(e);
                    },
                }
            },
            ColumnExpr::Aggregate(_) => {
                proof {
                    lemma_join_items_stuck(rv, iv, cv, k + 1);
                    lemma_join_items_error(rv, iv, cv, k as int);
                }
                return Err("JOIN 暂不支持聚合".to_string());
            },
        }
        k = k + 1;
    }
    proof {
        assert(cv.take(cv.len() as int) =~= cv);
    }
    Ok(out)
}

/// The combinations of `extend(res, list)` are those of `res`, one item
/// longer, the new item taken from `list`.
proof fn lemma_extend_props<A>(res: Seq<Seq<A>>, list: Seq<A>, data: Seq<Seq<A>>)
    requires
        forall|a: int| 0 <= a < res.len() ==> (#[trigger] res[a]).len() == data.len(),
        forall|a: int, t: int| 0 <= a < res.len() && 0 <= t < data.len() ==> data[t].contains(#[trigger] res[a][t]),
    ensures
        forall|k: int| 0 <= k < extend(res, list).len() ==> (#[trigger] extend(res, list)[k]).len() == data.len() + 1,
        forall|k: int, t: int| 0 <= k < extend(res, list).len() && 0 <= t < data.len() ==> data[t].contains(
            #[trigger] extend(res, list)[k][t],
        ),
        forall|k: int| 0 <= k < extend(res, list).len() ==> list.contains(#[trigger] extend(res, list)[k][data.len() as int]),
    decreases res.len(),
{
    if res.len() > 0 {
        let init = res.drop_last();
        lemma_extend_props(init, list, data);
        let e0 = extend(init, list);
        let tail = list.map_values(|x: A| res.last().push(x));
        let e = extend(res, list);
        assert(e == e0 + tail);
        assert forall|k: int| 0 <= k < e.len() implies (#[trigger] e[k]).len() == data.len() + 1 && list.contains(
            e[k][data.len() as int],
        ) && forall|t: int| 0 <= t < data.len() ==> data[t].contains(#[trigger] e[k][t]) by {
            if k < e0.len() {
                assert(e[k] == e0[k]);
            } else {
                let b = k - e0.len();
                assert(e[k] == tail[b]);
                assert(tail[b] == res.last().push(list[b]));
                assert(res.last() == res[res.len() - 1]);
                assert forall|t: int| 0 <= t < data.len() implies data[t].contains(#[trigger] e[k][t]) by {
                    assert(e[k][t] == res[res.len() - 1][t]);
                }
            }
        }
    }
}

/// Every combination takes one item of each list, in order.
proof fn lemma_cartesian_members<A>(data: Seq<Seq<A>>)
    ensures
        forall|k: int| 0 <= k < cartesian(data).len() ==> (#[trigger] cartesian(data)[k]).len() == data.len(),
        forall|k: int, t: int| 0 <= k < cartesian(data).len() && 0 <= t < data.len() ==> data[t].contains(
            #[trigger] cartesian(data)[k][t],
        ),
    decreases data.len(),
{
    if data.len() > 0 {
        let init = data.drop_last();
        lemma_cartesian_members(init);
        let res = cartesian(init);
        lemma_extend_props(res, data.last(), init);
        let c = cartesian(data);
        assert(c == extend(res, data.last()));
        assert forall|k: int, t: int| 0 <= k < c.len() && 0 <= t < data.len() implies data[t].contains(#[trigger] c[k][t]) by {
            if t < init.len() {
                assert(init[t] == data[t]);
                assert(init[t].contains(c[k][t]));
            } else {
                assert(data.last().contains(c[k][init.len() as int]));
            }
        }
    }
}

/// The rows of each joined table, as values.
pub open spec fn join_data(tables: Map<Seq<char>, TableView>, refs: Seq<TableRefView>) -> Seq<Seq<Seq<Seq<char>>>> {
    refs.map_values(|t: TableRefView| tables[t.name].rows.map_values(|r: (u64, Seq<Seq<char>>)| r.1))
}

/// The alias and columns of each joined table.
pub open spec fn join_info(tables: Map<Seq<char>, TableView>, refs: Seq<TableRefView>) -> Seq<(Option<Seq<char>>, Seq<Seq<char>>)> {
    refs.map_values(|t: TableRefView| (t.alias, tables[t.name].columns))
}

/// The number of rows of the joined tables together.
pub open spec fn rows_scanned(tables: Map<Seq<char>, TableView>, refs: Seq<TableRefView>) -> int
    decreases refs.len(),
{
    if refs.len() == 0 {
        0
    } else {
        rows_scanned(tables, refs.drop_last()) + tables[refs.last().name].rows.len()
    }
}

/// The output rows of the combinations that pass the join conditions, in
/// order; `None` on the first error.
pub open spec fn joined_rows<O: Fn(&str, &str) -> Option<Order>>(
    order: O,
    combos: Seq<Seq<Seq<Seq<char>>>>,
    info: Seq<(Option<Seq<char>>, Seq<Seq<char>>)>,
    conds: Seq<ConditionView>,
    proj: ProjView,
) -> Option<Seq<Seq<Seq<char>>>>
    decreases combos.len(),
{
    if combos.len() == 0 {
        Some(Seq::empty())
    } else {
        match joined_rows(order, combos.drop_last(), info, conds, proj) {
            None => None,
            Some(out) => match join_passes(order, combos.last(), info, conds) {
                None => None,
                Some(false) => Some(out),
                Some(true) => match join_row(combos.last(), info, proj) {
                    None => None,
                    Some(r) => Some(out.push(r)),
                },
            },
        }
    }
}

/// The text of the error gathering the tables of a join gives, with `acc`
/// rows counted so far: the first table that is missing, or whose rows
/// overflow the count.
pub open spec fn tables_error(tables: Map<Seq<char>, TableView>, refs: Seq<TableRefView>, acc: int) -> Option<
    Seq<char>,
>
    decreases refs.len(),
{
    if refs.len() == 0 {
        None
    } else if !tables.contains_key(refs[0].name) {
        Some("表不存在"@)
    } else if acc + tables[refs[0].name].rows.len() > usize::MAX {
        Some("扫描行数溢出"@)
    } else {
        tables_error(tables, refs.drop_first(), acc + tables[refs[0].name].rows.len())
    }
}

/// The text of the error the combinations of a join stop at: that of the
/// first combination whose conditions or output row cannot be read.
pub open spec fn joined_error<O: Fn(&str, &str) -> Option<Order>>(
    order: O,
    combos: Seq<Seq<Seq<Seq<char>>>>,
    info: Seq<(Option<Seq<char>>, Seq<Seq<char>>)>,
    conds: Seq<ConditionView>,
    proj: ProjView,
) -> Seq<char>
    decreases combos.len(),
{
    if combos.len() == 0 {
        Seq::empty()
    } else {
        match join_passes(order, combos[0], info, conds) {
            None => join_passes_error(order, combos[0], info, conds),
            Some(false) => joined_error(order, combos.drop_first(), info, conds, proj),
            Some(true) => match join_row(combos[0], info, proj) {
                None => join_items_error(combos[0], info, proj.columns),
                Some(_) => joined_error(order, combos.drop_first(), info, conds, proj),
            },
        }
    }
}

/// The text of the error a join gives, where it gives one.
pub open spec fn join_error<O: Fn(&str, &str) -> Option<Order>>(
    order: O,
    tables: Map<Seq<char>, TableView>,
    refs: Seq<TableRefView>,
    conds: Seq<ConditionView>,
    proj: ProjView,
) -> Seq<char> {
    if refs.len() < 2 {
        "JOIN 至少需要两张表"@
    } else {
        match tables_error(tables, refs, 0) {
            Some(t) => t,
            None => joined_error(order, cartesian(join_data(tables, refs)), join_info(tables, refs), conds, proj),
        }
    }
}

/// What a join of the tables `refs` gives: its rows and the number of rows
/// looked at; `None` for fewer than two tables, a missing table, or an
/// error in a condition or an output row.
pub open spec fn join_result<O: Fn(&str, &str) -> Option<Order>>(
    order: O,
    tables: Map<Seq<char>, TableView>,
    refs: Seq<TableRefView>,
    conds: Seq<ConditionView>,
    proj: ProjView,
) -> Option<(Seq<Seq<Seq<char>>>, int)> {
    if refs.len() < 2 || (exists|i: int| 0 <= i < refs.len() && !tables.contains_key(#[trigger] refs[i].name))
        || rows_scanned(tables, refs) > usize::MAX {
        None
    } else {
        match joined_rows(order, cartesian(join_data(tables, refs)), join_info(tables, refs), conds, proj) {
            None => None,
            Some(rows) => Some((rows, rows_scanned(tables, refs))),
        }
    }
}

/// Once a combination fails, the whole join does.
proof fn lemma_joined_stuck<O: Fn(&str, &str) -> Option<Order>>(
    order: O,
    combos: Seq<Seq<Seq<Seq<char>>>>,
    info: Seq<(Option<Seq<char>>, Seq<Seq<char>>)>,
    conds: Seq<ConditionView>,
    proj: ProjView,
    k: int,
)
    requires
        0 <= k <= combos.len(),
        joined_rows(order, combos.take(k), info, conds, proj) is None,
    ensures
        joined_rows(order, combos, info, conds, proj) is None,
    decreases combos.len() - k,
{
    if k < combos.len() {
        assert(combos.take(k + 1).drop_last() =~= combos.take(k));
        lemma_joined_stuck(order, combos, info, conds, proj, k + 1);
    } else {
        assert(combos.take(k) =~= combos);
    }
}

/// Partial sums of row counts only grow.
proof fn lemma_scanned_grows(tables: Map<Seq<char>, TableView>, refs: Seq<TableRefView>, k: int)
    requires
        0 <= k <= refs.len(),
    ensures
        rows_scanned(tables, refs.take(k)) <= rows_scanned(tables, refs),
    decreases refs.len() - k,
{
    if k < refs.len() {
        lemma_scanned_grows(tables, refs, k + 1);
        assert(refs.take(k + 1).drop_last() =~= refs.take(k));
    } else {
        assert(refs.take(k) =~= refs);
    }
}

/// Joins two tables or more: every combination of one row of each table,
/// the first table varying slowest, is checked against the conditions,
/// and those that pass give an output row.
pub fn nested_loop_join<O: Fn(&str, &str) -> Option<Order>>(
    db: &Database,
    tables: Vec<TableRef>,
    conditions: &Vec<Condition>,
    proj: &ProjectionInfo,
    order: &O,
) -> (r: Result<(Vec<Vec<String>>, usize), String>)
    requires
        db.wf(),
        is_value_order(*order),
    ensures
        match r {
            Ok((rows, n)) => join_result(*order, db@.tables, table_refs_view(tables@), conditions_view(conditions@), proj@)
                == Some((crate::sorting::rows_deep(rows@), n as int)),
            Err(e) => join_result(*order, db@.tables, table_refs_view(tables@), conditions_view(conditions@), proj@) is None
                && e@ == join_error(*order, db@.tables, table_refs_view(tables@), conditions_view(conditions@), proj@),
        },
{
    let ghost refs = table_refs_view(tables@);
    let ghost tm = db@.tables;
    if tables.len() < 2 {
        return Err("JOIN 至少需要两张表".to_string());
    }
    let ghost f = |x: &Vec<String>| x.deep_view();
    let mut table_data: Vec<Vec<&Vec<String>>> = Vec::new();
    let mut table_cols: Vec<(Option<String>, Vec<String>)> = Vec::new();
    let mut total: usize = 0;
    let mut k: usize = 0;
    proof {
        assert(refs.skip(0) =~= refs);
        assert(refs.take(0) =~= Seq::<TableRefView>::empty());
        assert(vecs_view(table_data@).map_values(|l: Seq<&Vec<String>>| l.map_values(f)) =~= join_data(tm, refs.take(0)));
        assert(info_view(table_cols@) =~= join_info(tm, refs.take(0)));
    }
    while k < tables.len()
        invariant
            k <= tables@.len(),
            tables@.len() >= 2,
            refs == table_refs_view(tables@),
            tm == db@.tables,
            tables_error(tm, refs, 0) == tables_error(tm, refs.skip(k as int), total as int),
            db.wf(),
            f == (|x: &Vec<String>| x.deep_view()),
            forall|i: int| 0 <= i < k ==> tm.contains_key(#[trigger] refs[i].name),
            total as int == rows_scanned(tm, refs.take(k as int)),
            vecs_view(table_data@).map_values(|l: Seq<&Vec<String>>| l.map_values(f)) == join_data(tm, refs.take(k as int)),
            info_view(table_cols@) == join_info(tm, refs.take(k as int)),
        decreases tables@.len() - k,
    {
        proof {
            assert(refs.take(k + 1).drop_last() =~= refs.take(k as int));
            assert(refs.take(k + 1).last() == tables@[k as int]@);
            assert(refs.skip(k as int)[0] == refs[k as int]);
            assert(refs.skip(k as int).drop_first() =~= refs.skip(k + 1));
        }
        let i = match db.find_table(&tables[k].name) {
            Some(i) => i,
            None => {
                proof {
                    assert(!tm.contains_key(refs[k as int].name));
                }
                return Err("表不存在".to_string());
            },
        };
        let table = &db.tables[i].table;
        let ghost tv = table@;
        let mut rows: Vec<&Vec<String>> = Vec::new();
        let mut j: usize = 0;
        while j < table.rows.len()
            invariant
                j <= table.rows@.len(),
                rows@.len() == j,
                forall|y: int| 0 <= y < j ==> #[trigger] rows@[y] == &table.rows@[y].values,
            decreases table.rows@.len() - j,
        {
            rows.push(&table.rows[j].values);
            j = j + 1;
        }
        total = match total.checked_add(rows.len()) {
            Some(t) => t,
            None => {
                proof {
                    lemma_scanned_grows(tm, refs, k + 1);
                    assert(tv == tm[refs[k as int].name]);
                }
                return Err("扫描行数溢出".to_string());
            },
        };
        let ghost before_data = vecs_view(table_data@);
        let ghost before_cols = info_view(table_cols@);
        let alias = match &tables[k].alias {
            Some(a) => Some(a.clone()),
            None => None,
        };
        table_data.push(rows);
        table_cols.push((alias, copy_strings(&table.columns)));
        proof {
            assert(tv == tm[refs[k as int].name]);
            assert(refs.take(k + 1) =~= refs.take(k as int).push(refs[k as int]));
            assert(rows@.map_values(f) =~= tv.rows.map_values(|r: (u64, Seq<Seq<char>>)| r.1));
            assert(join_data(tm, refs.take(k + 1)) =~= join_data(tm, refs.take(k as int)).push(
                tv.rows.map_values(|r: (u64, Seq<Seq<char>>)| r.1),
            ));
            assert(join_info(tm, refs.take(k + 1)) =~= join_info(tm, refs.take(k as int)).push(
                (refs[k as int].alias, tv.columns),
            ));
            assert(vecs_view(table_data@) =~= before_data.push(rows@));
            assert(vecs_view(table_data@).map_values(|l: Seq<&Vec<String>>| l.map_values(f)) =~= join_data(tm, refs.take(k + 1)));
            assert(info_view(table_cols@) =~= join_info(tm, refs.take(k + 1)));
        }
        k = k + 1;
    }
    proof {
        assert(refs.take(refs.len() as int) =~= refs);
        assert(!(exists|i: int| 0 <= i < refs.len() && !tm.contains_key(#[trigger] refs[i].name)));
    }
    let cartesian_rows = cartesian_product(&table_data);
    let ghost data = join_data(tm, refs);
    let ghost info = join_info(tm, refs);
    let ghost combos = cartesian(data);
    proof {
        lemma_cartesian_map(vecs_view(table_data@), f);
        lemma_cartesian_members(data);
        assert forall|c: int| 0 <= c < cartesian_rows@.len() implies #[trigger] crate::aggregate::refs_deep(
            cartesian_rows@[c]@,
        ) == combos[c] by {
            assert(vecs_view(cartesian_rows@)[c] == cartesian_rows@[c]@);
        }
    }
    let mut result: Vec<Vec<String>> = Vec::new();
    let mut c: usize = 0;
    proof {
        assert(refs.skip(refs.len() as int) =~= Seq::<TableRefView>::empty());
        assert(combos.skip(0) =~= combos);
        assert(combos.take(0) =~= Seq::<Seq<Seq<Seq<char>>>>::empty());
        assert(crate::sorting::rows_deep(result@) =~= Seq::<Seq<Seq<char>>>::empty());
    }
    while c < cartesian_rows.len()
        invariant
            c <= cartesian_rows@.len(),
            refs.len() >= 2,
            total as int == rows_scanned(tm, refs),
            refs == table_refs_view(tables@),
            cartesian_rows@.len() == combos.len(),
            combos == cartesian(data),
            data == join_data(tm, refs),
            info == join_info(tm, refs),
            info_view(table_cols@) == info,
            tm == db@.tables,
            db.wf(),
            is_value_order(*order),
            forall|i: int| 0 <= i < refs.len() ==> tm.contains_key(#[trigger] refs[i].name),
            forall|q: int| 0 <= q < cartesian_rows@.len() ==> #[trigger] crate::aggregate::refs_deep(cartesian_rows@[q]@) == combos[q],
            forall|q: int| 0 <= q < combos.len() ==> (#[trigger] combos[q]).len() == data.len(),
            forall|q: int, t: int| 0 <= q < combos.len() && 0 <= t < data.len() ==> data[t].contains(#[trigger] combos[q][t]),
            joined_rows(*order, combos.take(c as int), info, conditions_view(conditions@), proj@) == Some(
                crate::sorting::rows_deep(result@),
            ),
            tables_error(tm, refs, 0) is None,
            joined_error(*order, combos, info, conditions_view(conditions@), proj@) == joined_error(
                *order,
                combos.skip(c as int),
                info,
                conditions_view(conditions@),
                proj@,
            ),
        decreases cartesian_rows@.len() - c,
    {
        proof {
            assert(combos.take(c + 1).drop_last() =~= combos.take(c as int));
            assert(combos.take(c + 1).last() == combos[c as int]);
            assert(combos.skip(c as int)[0] == combos[c as int]);
            assert(combos.skip(c as int).drop_first() =~= combos.skip(c + 1));
            let cb = combos[c as int];
            assert forall|t: int| 0 <= t < cb.len() implies (#[trigger] cb[t]).len() == info[t].1.len() by {
                assert(data[t].contains(cb[t]));
                let tv = tm[refs[t].name];
                assert(tm.contains_key(refs[t].name));
                let y = choose|y: int| 0 <= y < data[t].len() && data[t][y] == cb[t];
                assert(data[t][y] == tv.rows[y].1);
                crate::database::lemma_table_view_wf(db, refs[t].name);
                assert(tv.rows[y].1.len() == tv.columns.len());
            }
        }
        let pass = match check_join_condition(&cartesian_rows[c], &table_cols, conditions, order) {
            Ok(b) => b,
            Err(e) => {
                proof {
                    lemma_joined_stuck(*order, combos, info, conditions_view(conditions@), proj@, c + 1);
                }
                return Err(e);
            },
        };
        if pass {
            match build_join_output(&cartesian_rows[c], &table_cols, proj) {
                Ok(row) => {
                    let ghost before = crate::sorting::rows_deep(result@);
                    let ghost rd = row.deep_view();
                    result.push(row);
                    proof {
                        assert(crate::sorting::rows_deep(result@) =~= before.push(rd));
                    }
                },
                Err(e) => {
                    proof {
                        lemma_joined_stuck(*order, combos, info, conditions_view(conditions@), proj@, c + 1);
                    }
                    return Err(e);
                },
            }
        }
        c = c + 1;
    }
    proof {
        assert(combos.take(combos.len() as int) =~= combos);
    }
    Ok((result, total))
}

} // verus!
