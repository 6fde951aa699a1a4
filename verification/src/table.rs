//! A table: rows kept in ascending order of their ids, secondary indexes
//! from a column's values to the ids of the rows that hold them, and the
//! names under which the indexes were created.
use vstd::prelude::*;
use crate::assoc::{find_key, has_key, keys_distinct, lemma_map_at, lemma_map_pointwise, lemma_map_push, lemma_map_remove, lemma_map_update, to_map, Keyed};
use crate::text::{find_position, position, lemma_position_facts};

verus! {

broadcast use vstd::string::group_string_axioms;

/// A stored row.
#[derive(Debug)]
pub struct Row {
    pub id: u64,
    pub values: Vec<String>,
}

/// The ids of the rows that hold one value, in the order they were added.
#[derive(Debug)]
pub struct IndexEntry {
    pub value: String,
    pub ids: Vec<u64>,
}

/// An index on one column.
#[derive(Debug)]
pub struct ColumnIndex {
    pub column: String,
    pub entries: Vec<IndexEntry>,
}

/// The column an index name stands for.
#[derive(Debug)]
pub struct IndexName {
    pub name: String,
    pub column: String,
}

impl Keyed for IndexEntry {
    open spec fn key_view(&self) -> Seq<char> {
        self.value@
    }

    fn key(&self) -> (r: &String) {
        &self.value
    }
}

impl Keyed for ColumnIndex {
    open spec fn key_view(&self) -> Seq<char> {
        self.column@
    }

    fn key(&self) -> (r: &String) {
        &self.column
    }
}

impl Keyed for IndexName {
    open spec fn key_view(&self) -> Seq<char> {
        self.name@
    }

    fn key(&self) -> (r: &String) {
        &self.name
    }
}

/// A table.
#[derive(Debug)]
pub struct Table {
    pub columns: Vec<String>,
    pub rows: Vec<Row>,
    pub next_id: u64,
    pub indexes: Vec<ColumnIndex>,
    pub index_name_to_col: Vec<IndexName>,
}

/// The ids of one index, by value.
pub type IndexMap = Map<Seq<char>, Seq<u64>>;

/// The contents of a table.
pub struct TableView {
    pub columns: Seq<Seq<char>>,
    /// (id, values) in ascending order of id.
    pub rows: Seq<(u64, Seq<Seq<char>>)>,
    pub next_id: u64,
    /// For each indexed column, its index.
    pub indexes: Map<Seq<char>, IndexMap>,
    /// For each index name, its column.
    pub index_names: Map<Seq<char>, Seq<char>>,
}

pub open spec fn entry_pairs(ci: ColumnIndex) -> Seq<(Seq<char>, Seq<u64>)> {
    ci.entries@.map_values(|e: IndexEntry| (e.value@, e.ids@))
}

pub open spec fn index_pairs(ixs: Seq<ColumnIndex>) -> Seq<(Seq<char>, IndexMap)> {
    ixs.map_values(|ci: ColumnIndex| (ci.column@, to_map(entry_pairs(ci))))
}

pub open spec fn name_pairs(names: Seq<IndexName>) -> Seq<(Seq<char>, Seq<char>)> {
    names.map_values(|n: IndexName| (n.name@, n.column@))
}

pub open spec fn rows_view(rows: Seq<Row>) -> Seq<(u64, Seq<Seq<char>>)> {
    rows.map_values(|r: Row| (r.id, r.values.deep_view()))
}

impl View for Table {
    type V = TableView;

    open spec fn view(&self) -> TableView {
        TableView {
            columns: self.columns.deep_view(),
            rows: rows_view(self.rows@),
            next_id: self.next_id,
            indexes: to_map(index_pairs(self.indexes@)),
            index_names: to_map(name_pairs(self.index_name_to_col@)),
        }
    }
}

/// The ids an index lists for `v` (none when it has no entry for `v`).
pub open spec fn ids_of(m: IndexMap, v: Seq<char>) -> Seq<u64> {
    if m.contains_key(v) { m[v] } else { Seq::empty() }
}

/// Some row has id `id` and value `v` at position `p`.
pub open spec fn row_has(rows: Seq<(u64, Seq<Seq<char>>)>, id: u64, p: int, v: Seq<char>) -> bool {
    exists|r: int| 0 <= r < rows.len() && #[trigger] rows[r].0 == id && rows[r].1[p] == v
}

/// The index `m` on position `p` lists exactly the rows, each once, under
/// the value they hold there, and has no empty entry.
pub open spec fn index_consistent(rows: Seq<(u64, Seq<Seq<char>>)>, p: int, m: IndexMap) -> bool {
    &&& forall|v: Seq<char>| #[trigger] m.contains_key(v) ==> m[v].len() > 0 && m[v].no_duplicates()
    &&& forall|v: Seq<char>, j: int|
        m.contains_key(v) && 0 <= j < m[v].len() ==> row_has(rows, #[trigger] m[v][j], p, v)
    &&& forall|r: int|
        0 <= r < rows.len() ==> m.contains_key(#[trigger] rows[r].1[p]) && m[rows[r].1[p]].contains(
            rows[r].0,
        )
}

/// Row ids ascend strictly.
pub open spec fn ids_ascending(rows: Seq<(u64, Seq<Seq<char>>)>) -> bool {
    forall|i: int, j: int| 0 <= i < j < rows.len() ==> #[trigger] rows[i].0 < #[trigger] rows[j].0
}

/// Some row has id `id`.
pub open spec fn has_row(rows: Seq<(u64, Seq<Seq<char>>)>, id: u64) -> bool {
    exists|r: int| 0 <= r < rows.len() && #[trigger] rows[r].0 == id
}

/// The position of `c` among the columns (meaningful for an existing column).
pub open spec fn column_pos(columns: Seq<Seq<char>>, c: Seq<char>) -> int {
    match position(columns, c) {
        Some(p) => p,
        None => 0,
    }
}

impl TableView {
    /// What every table keeps: ids ascend and stay below `next_id`, every row
    /// has one value per column, and every index is on an existing column and
    /// consistent with the rows.
    pub open spec fn wf(self) -> bool {
        &&& ids_ascending(self.rows)
        &&& forall|i: int| 0 <= i < self.rows.len() ==> #[trigger] self.rows[i].0 < self.next_id
        &&& forall|i: int| 0 <= i < self.rows.len() ==> (#[trigger] self.rows[i]).1.len() == self.columns.len()
        &&& forall|c: Seq<char>| #[trigger] self.indexes.contains_key(c) ==> position(self.columns, c) is Some
        &&& forall|c: Seq<char>| #[trigger] self.indexes.contains_key(c) ==> index_consistent(
            self.rows,
            column_pos(self.columns, c),
            self.indexes[c],
        )
    }

    /// The index `m` after adding the row `id` holding `v`.
    pub open spec fn index_with(m: IndexMap, v: Seq<char>, id: u64) -> IndexMap {
        m.insert(v, ids_of(m, v).push(id))
    }

    /// All indexes after adding the row (`id`, `vals`).
    pub open spec fn indexes_with(self, id: u64, vals: Seq<Seq<char>>) -> Map<Seq<char>, IndexMap> {
        Map::new(
            |c: Seq<char>| self.indexes.contains_key(c),
            |c: Seq<char>| Self::index_with(self.indexes[c], vals[column_pos(self.columns, c)], id),
        )
    }

    /// The table after adding the row (`id`, `vals`) at position `k` of the
    /// ascending order.
    pub open spec fn with_row_at(self, k: int, id: u64, vals: Seq<Seq<char>>) -> TableView {
        TableView {
            columns: self.columns,
            rows: self.rows.insert(k, (id, vals)),
            next_id: if id >= self.next_id { (id + 1) as u64 } else { self.next_id },
            indexes: self.indexes_with(id, vals),
            index_names: self.index_names,
        }
    }
}

impl TableView {
    /// An empty table with the given columns.
    pub open spec fn fresh(columns: Seq<Seq<char>>) -> TableView {
        TableView {
            columns,
            rows: Seq::empty(),
            next_id: 1,
            indexes: Map::empty(),
            index_names: Map::empty(),
        }
    }

    /// The table after adding the row (`id`, `vals`) where `id` belongs in
    /// the ascending order.
    pub open spec fn with_new_row(self, id: u64, vals: Seq<Seq<char>>) -> TableView {
        self.with_row_at(choose|k: int| insert_point(self.rows, k, id), id, vals)
    }
}

/// Among ascending ids there is one place for a new id.
pub proof fn lemma_insert_point_unique(rows: Seq<(u64, Seq<Seq<char>>)>, k: int, id: u64)
    requires
        insert_point(rows, k, id),
    ensures
        (choose|k2: int| insert_point(rows, k2, id)) == k,
{
    let k2 = choose|k2: int| insert_point(rows, k2, id);
    assert(insert_point(rows, k2, id));
    if k2 < k {
        assert(rows[k2].0 < id);
    } else if k2 > k {
        assert(rows[k].0 < id);
    }
}

/// `k` is where `id` goes among rows in ascending order.
pub open spec fn insert_point(rows: Seq<(u64, Seq<Seq<char>>)>, k: int, id: u64) -> bool {
    &&& 0 <= k <= rows.len()
    &&& forall|j: int| 0 <= j < k ==> #[trigger] rows[j].0 < id
    &&& forall|j: int| k <= j < rows.len() ==> #[trigger] rows[j].0 > id
}

pub proof fn lemma_insert_at<A>(s: Seq<A>, k: int, x: A)
    requires
        0 <= k <= s.len(),
    ensures
        s.insert(k, x).len() == s.len() + 1,
        forall|i: int|
            0 <= i < s.len() + 1 ==> #[trigger] s.insert(k, x)[i] == (if i < k {
                s[i]
            } else if i == k {
                x
            } else {
                s[i - 1]
            }),
{
    s.insert_ensures(k, x);
    assert forall|i: int| 0 <= i < s.len() + 1 implies #[trigger] s.insert(k, x)[i] == (if i < k {
        s[i]
    } else if i == k {
        x
    } else {
        s[i - 1]
    }) by {
        if i > k {
            assert(s.insert(k, x)[(i - 1) + 1] == s[i - 1]);
        }
    }
}

/// Adding a row at its place in the order keeps a table well formed.
pub proof fn lemma_with_row_wf(tv: TableView, k: int, id: u64, vals: Seq<Seq<char>>)
    requires
        tv.wf(),
        insert_point(tv.rows, k, id),
        vals.len() == tv.columns.len(),
        id < u64::MAX,
    ensures
        tv.with_row_at(k, id, vals).wf(),
{
    let rows = tv.rows;
    let nt = tv.with_row_at(k, id, vals);
    let rows2 = nt.rows;
    lemma_insert_at(rows, k, (id, vals));
    assert(ids_ascending(rows2)) by {
        assert forall|i: int, j: int| 0 <= i < j < rows2.len() implies #[trigger] rows2[i].0 < #[trigger] rows2[j].0 by {
            if i < k && j > k {
                assert(rows[i].0 < id);
            }
        }
    }
    assert forall|i: int| 0 <= i < rows2.len() implies #[trigger] rows2[i].0 < nt.next_id by {
        if i < k {
            assert(rows[i].0 < tv.next_id);
        } else if i > k {
            assert(rows[i - 1].0 < tv.next_id);
        }
    }
    assert forall|i: int| 0 <= i < rows2.len() implies (#[trigger] rows2[i]).1.len() == nt.columns.len() by {
        if i < k {
            assert(rows[i].1.len() == tv.columns.len());
        } else if i > k {
            assert(rows[i - 1].1.len() == tv.columns.len());
        }
    }
    assert forall|c: Seq<char>| #[trigger] nt.indexes.contains_key(c) implies index_consistent(
        rows2,
        column_pos(nt.columns, c),
        nt.indexes[c],
    ) by {
        let p = column_pos(tv.columns, c);
        lemma_position_facts(tv.columns, c);
        lemma_consistent_insert(rows, k, p, tv.indexes[c], id, vals);
    }
}

/// Adding a row at its place in the order keeps an index consistent when
/// the row's value is listed under its new id.
pub proof fn lemma_consistent_insert(
    rows: Seq<(u64, Seq<Seq<char>>)>,
    k: int,
    p: int,
    m: IndexMap,
    id: u64,
    vals: Seq<Seq<char>>,
)
    requires
        index_consistent(rows, p, m),
        insert_point(rows, k, id),
    ensures
        index_consistent(rows.insert(k, (id, vals)), p, TableView::index_with(m, vals[p], id)),
{
    let rows2 = rows.insert(k, (id, vals));
    lemma_insert_at(rows, k, (id, vals));
    let v0 = vals[p];
    let m2 = TableView::index_with(m, v0, id);
    // the new id is no row id yet
    assert forall|j: int| 0 <= j < ids_of(m, v0).len() implies #[trigger] ids_of(m, v0)[j] != id by {
        assert(row_has(rows, m[v0][j], p, v0));
        let r = choose|r: int| 0 <= r < rows.len() && #[trigger] rows[r].0 == m[v0][j] && rows[r].1[p] == v0;
        if r < k {
            assert(rows[r].0 < id);
        } else {
            assert(rows[r].0 > id);
        }
    }
    assert forall|v: Seq<char>| #[trigger] m2.contains_key(v) implies m2[v].len() > 0 && m2[v].no_duplicates() by {
        if v == v0 {
            let l = ids_of(m, v0);
            assert(l.no_duplicates());
            assert(m2[v] == l.push(id));
        }
    }
    assert forall|v: Seq<char>, j: int| m2.contains_key(v) && 0 <= j < m2[v].len() implies row_has(
        rows2,
        #[trigger] m2[v][j],
        p,
        v,
    ) by {
        if v == v0 && j == ids_of(m, v0).len() {
            assert(rows2[k].0 == id);
        } else {
            assert(m2[v][j] == m[v][j]);
            assert(row_has(rows, m[v][j], p, v));
            let r = choose|r: int| 0 <= r < rows.len() && #[trigger] rows[r].0 == m[v][j] && rows[r].1[p] == v;
            if r < k {
                assert(rows2[r] == rows[r]);
            } else {
                assert(rows2[r + 1] == rows[r]);
            }
        }
    }
    assert forall|r: int| 0 <= r < rows2.len() implies m2.contains_key(#[trigger] rows2[r].1[p])
        && m2[rows2[r].1[p]].contains(rows2[r].0) by {
        if r == k {
            assert(m2[v0][ids_of(m, v0).len() as int] == id);
        } else {
            let r0 = if r < k { r } else { r - 1 };
            assert(rows2[r] == rows[r0]);
            let w = rows[r0].1[p];
            assert(m.contains_key(w) && m[w].contains(rows[r0].0));
            if w == v0 {
                let q = choose|q: int| 0 <= q < m[w].len() && m[w][q] == rows[r0].0;
                assert(m2[w][q] == rows[r0].0);
            }
        }
    }
}

impl Table {
    /// The exec-side shape every table keeps besides `self@.wf()`: names are
    /// not repeated in any of the lists.
    pub open spec fn shape_ok(&self) -> bool {
        &&& keys_distinct(index_pairs(self.indexes@))
        &&& keys_distinct(name_pairs(self.index_name_to_col@))
        &&& forall|k: int| 0 <= k < self.indexes@.len() ==> keys_distinct(entry_pairs(#[trigger] self.indexes@[k]))
    }

    /// A well-formed table.
    pub open spec fn wf(&self) -> bool {
        self.shape_ok() && self@.wf()
    }

    /// An empty table with the given columns.
    pub fn new(columns: Vec<String>) -> (t: Table)
        ensures
            t.wf(),
            t@.columns == columns.deep_view(),
            t@.rows == Seq::<(u64, Seq<Seq<char>>)>::empty(),
            t@.next_id == 1,
            t@.indexes == Map::<Seq<char>, IndexMap>::empty(),
            t@.index_names == Map::<Seq<char>, Seq<char>>::empty(),
            t@ == TableView::fresh(columns.deep_view()),
    {
        let t = Table {
            columns,
            rows: Vec::new(),
            next_id: 1,
            indexes: Vec::new(),
            index_name_to_col: Vec::new(),
        };
        assert(rows_view(t.rows@) =~= Seq::<(u64, Seq<Seq<char>>)>::empty());
        assert(t@.indexes =~= Map::<Seq<char>, IndexMap>::empty());
        assert(t@.index_names =~= Map::<Seq<char>, Seq<char>>::empty());
        t
    }

    /// Adds the row `id` holding `values` to every index.
    fn add_to_indexes(&mut self, id: u64, values: &Vec<String>)
        requires
            old(self).wf(),
            values@.len() == old(self)@.columns.len(),
        ensures
            final(self).shape_ok(),
            final(self).columns == old(self).columns,
            final(self).rows == old(self).rows,
            final(self).next_id == old(self).next_id,
            final(self).index_name_to_col == old(self).index_name_to_col,
            final(self)@.indexes == old(self)@.indexes_with(id, values.deep_view()),
    {
        let ghost old_pairs = index_pairs(self.indexes@);
        let ghost cols = self@.columns;
        let ghost vals = values.deep_view();
        let ghost f = |c: Seq<char>, m: IndexMap| TableView::index_with(m, vals[column_pos(cols, c)], id);
        proof {
            assert forall|j: int| 0 <= j < self.indexes@.len() implies position(cols, (#[trigger] self.indexes@[j]).column@) is Some by {
                lemma_map_at(old_pairs, j);
                assert(old_pairs[j].0 == self.indexes@[j].column@);
                assert(self@.indexes.contains_key(old_pairs[j].0));
            }
        }
        let mut i: usize = 0;
        while i < self.indexes.len()
            invariant
                i <= self.indexes@.len(),
                self.indexes@.len() == old_pairs.len(),
                self.columns == old(self).columns,
                self.rows == old(self).rows,
                self.next_id == old(self).next_id,
                self.index_name_to_col == old(self).index_name_to_col,
                cols == self.columns.deep_view(),
                vals == values.deep_view(),
                values@.len() == cols.len(),
                old_pairs == index_pairs(old(self).indexes@),
                keys_distinct(old_pairs),
                f == (|c: Seq<char>, m: IndexMap| TableView::index_with(m, vals[column_pos(cols, c)], id)),
                forall|j: int| 0 <= j < self.indexes@.len() ==> keys_distinct(entry_pairs(#[trigger] self.indexes@[j])),
                forall|j: int| 0 <= j < self.indexes@.len() ==> position(cols, (#[trigger] self.indexes@[j]).column@) is Some,
                forall|j: int| 0 <= j < i ==> #[trigger] index_pairs(self.indexes@)[j] == (old_pairs[j].0, f(old_pairs[j].0, old_pairs[j].1)),
                forall|j: int| i <= j < self.indexes@.len() ==> #[trigger] self.indexes@[j] == old(self).indexes@[j],
            decreases self.indexes@.len() - i,
        {
            let ghost before = self.indexes@;
            let pos = find_position(&self.columns, &self.indexes[i].column);
            match pos {
                Some(p) => {
                    let ghost m = to_map(entry_pairs(before[i as int]));
                    let ghost v = vals[p as int];
                    proof {
                        assert(column_pos(cols, before[i as int].column@) == p);
                        assert(values@[p as int]@ == v);
                    }
                    match find_key(&self.indexes[i].entries, &values[p]) {
                        Some(e) => {
                            let ghost ep = entry_pairs(before[i as int]);
                            proof {
                                lemma_map_at(ep, e as int);
                            }
                            self.indexes[i].entries[e].ids.push(id);
                            proof {
                                let ep2 = entry_pairs(self.indexes@[i as int]);
                                assert(ep2 =~= ep.update(e as int, (ep[e as int].0, ep[e as int].1.push(id))));
                                lemma_map_update(ep, e as int, ep[e as int].1.push(id));
                            }
                        },
                        None => {
                            let ghost ep = entry_pairs(before[i as int]);
                            let value = values[p].clone();
                            let ids = vec![id];
                            let ghost ne = IndexEntry { value, ids };
                            proof {
                                assert(ids@ =~= seq![id]);
                            }
                            self.indexes[i].entries.push(IndexEntry { value, ids });
                            proof {
                                assert(self.indexes@[i as int].entries@ =~= before[i as int].entries@.push(ne));
                                let ep2 = entry_pairs(self.indexes@[i as int]);
                                assert(ep2 =~= ep.push((v, seq![id])));
                                assert forall|q: int| 0 <= q < ep.len() implies #[trigger] ep[q].0 != v by {
                                    assert(ep[q].0 == before[i as int].entries@[q].value@);
                                    assert(before[i as int].entries@[q].key_view() != v);
                                }
                                assert(!has_key(ep, v));
                                lemma_map_push(ep, v, seq![id]);
                                assert(ids_of(m, v) =~= Seq::<u64>::empty());
                                assert(seq![id] =~= ids_of(m, v).push(id));
                            }
                        },
                    }
                    proof {
                        lemma_map_at(old_pairs, i as int);
                        assert(index_pairs(self.indexes@)[i as int].1 == f(old_pairs[i as int].0, old_pairs[i as int].1));
                        assert forall|j: int| 0 <= j < self.indexes@.len() && j != i implies #[trigger] self.indexes@[j] == before[j] by {}
                        assert(before[i as int] == old(self).indexes@[i as int]);
                        assert forall|j: int| 0 <= j <= i implies #[trigger] index_pairs(self.indexes@)[j] == (old_pairs[j].0, f(old_pairs[j].0, old_pairs[j].1)) by {
                            if j < i {
                                assert(self.indexes@[j] == before[j]);
                                assert(index_pairs(before)[j] == (old_pairs[j].0, f(old_pairs[j].0, old_pairs[j].1)));
                            }
                        }
                    }
                },
                None => {
                    proof {
                        assert(false);
                    }
                },
            }
            i = i + 1;
        }
        proof {
            let new_pairs = index_pairs(self.indexes@);
            lemma_map_pointwise(old_pairs, new_pairs, f);
            assert(self@.indexes =~= old(self)@.indexes_with(id, vals));
        }
    }

    /// Inserts a row with a given id (as WAL replay does). A row count that
    /// differs from the columns is an error; an id that is already stored is
    /// left as it is.
    pub fn insert_row_with_id(&mut self, id: u64, values: Vec<String>) -> (r: Result<(), String>)
        requires
            old(self).wf(),
            id < u64::MAX,
        ensures
            final(self).wf(),
            r is Err <==> values@.len() != old(self)@.columns.len(),
            r matches Err(e) ==> e@ == "Column count mismatch"@,
            r is Err || has_row(old(self)@.rows, id) ==> final(self)@ == old(self)@,
            r is Ok && !has_row(old(self)@.rows, id) ==> final(self)@ == old(self)@.with_new_row(
                id,
                values.deep_view(),
            ),
    {
        if values.len() != self.columns.len() {
            return Err("Column count mismatch".to_string());
        }
        let ghost rv = self@.rows;
        let mut k: usize = 0;
        while k < self.rows.len() && self.rows[k].id < id
            invariant
                k <= self.rows@.len(),
                rv == rows_view(self.rows@),
                forall|j: int| 0 <= j < k ==> #[trigger] rv[j].0 < id,
            decreases self.rows@.len() - k,
        {
            assert(rv[k as int].0 == self.rows@[k as int].id);
            k = k + 1;
        }
        if k < self.rows.len() && self.rows[k].id == id {
            assert(rv[k as int].0 == id);
            return Ok(());
        }
        proof {
            assert forall|j: int| k <= j < rv.len() implies #[trigger] rv[j].0 > id by {
                assert(rv[k as int].0 == self.rows@[k as int].id);
                if j > k {
                    assert(rv[k as int].0 < rv[j].0);
                }
            }
            assert(insert_point(rv, k as int, id));
            lemma_insert_point_unique(rv, k as int, id);
            assert(!has_row(rv, id));
            lemma_with_row_wf(self@, k as int, id, values.deep_view());
        }
        let ghost before = self@;
        if id >= self.next_id {
            self.next_id = id + 1;
        }
        self.add_to_indexes(id, &values);
        let ghost nr = Row { id, values };
        self.rows.insert(k, Row { id, values });
        proof {
            let rs = old(self).rows@;
            lemma_insert_at(rs, k as int, nr);
            lemma_insert_at(rv, k as int, (id, values.deep_view()));
            assert(rows_view(self.rows@) =~= rv.insert(k as int, (id, values.deep_view())));
            assert(self@ == before.with_row_at(k as int, id, values.deep_view()));
        }
        Ok(())
    }

    /// Inserts a row under the next id and returns that id. A row count that
    /// differs from the columns is an error.
    pub fn insert_row(&mut self, values: Vec<String>) -> (r: Result<u64, String>)
        requires
            old(self).wf(),
            old(self)@.next_id < u64::MAX,
        ensures
            final(self).wf(),
            r is Err <==> values@.len() != old(self)@.columns.len(),
            r is Err ==> final(self)@ == old(self)@,
            r matches Err(e) ==> e@ == "Column count mismatch"@,
            r matches Ok(id) ==> id == old(self)@.next_id && final(self)@ == old(self)@.with_row_at(
                old(self)@.rows.len() as int,
                id,
                values.deep_view(),
            ),
    {
        if values.len() != self.columns.len() {
            return Err("Column count mismatch".to_string());
        }
        let id = self.next_id;
        let ghost before = self@;
        proof {
            assert forall|j: int| 0 <= j < before.rows.len() implies #[trigger] before.rows[j].0 < id by {}
            assert(insert_point(before.rows, before.rows.len() as int, id));
            lemma_with_row_wf(before, before.rows.len() as int, id, values.deep_view());
        }
        self.add_to_indexes(id, &values);
        self.next_id = self.next_id + 1;
        let ghost nr = Row { id, values };
        self.rows.push(Row { id, values });
        proof {
            assert(rows_view(self.rows@) =~= before.rows.insert(before.rows.len() as int, (id, values.deep_view())));
            assert(self@ == before.with_row_at(before.rows.len() as int, id, values.deep_view()));
        }
        Ok(id)
    }
}

} // verus!
