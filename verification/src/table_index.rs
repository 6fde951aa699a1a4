//! Creating, dropping and reading the indexes of a table.
use vstd::prelude::*;
use crate::assoc::{
    find_key, has_key, keys_distinct, lemma_map_at, lemma_map_push, lemma_map_remove,
    lemma_map_update, to_map, Keyed,
};
use crate::condition::{Condition, ConditionView};
use crate::table::{
    column_pos, entry_pairs, ids_ascending, ids_of, index_consistent, index_pairs,
    lemma_consistent_insert, lemma_insert_at, name_pairs, rows_view, ColumnIndex, IndexEntry,
    IndexMap, IndexName, Row, Table, TableView, insert_point,
};
use crate::text::{find_position, lemma_position_facts, position};
use crate::value::str_equal;

verus! {

broadcast use vstd::string::group_string_axioms;

/// The index of position `p` built from `rows`: every value maps to the ids
/// of the rows holding it, in row order.
pub open spec fn built_index(rows: Seq<(u64, Seq<Seq<char>>)>, p: int) -> IndexMap
    decreases rows.len(),
{
    if rows.len() == 0 {
        Map::empty()
    } else {
        TableView::index_with(built_index(rows.drop_last(), p), rows.last().1[p], rows.last().0)
    }
}

/// The values stored under the row id `id`.
pub open spec fn row_values(rows: Seq<(u64, Seq<Seq<char>>)>, id: u64) -> Seq<Seq<char>> {
    rows[choose|r: int| 0 <= r < rows.len() && #[trigger] rows[r].0 == id].1
}

pub open spec fn entries_pairs(es: Seq<IndexEntry>) -> Seq<(Seq<char>, Seq<u64>)> {
    es.map_values(|e: IndexEntry| (e.value@, e.ids@))
}

impl TableView {
    /// The table after building the index `name` on column `col`.
    pub open spec fn with_index(self, name: Seq<char>, col: Seq<char>) -> TableView {
        TableView {
            indexes: self.indexes.insert(col, built_index(self.rows, column_pos(self.columns, col))),
            index_names: self.index_names.insert(name, col),
            ..self
        }
    }

    /// The table after dropping the index called `name`: an indexed column
    /// of that name loses its index together with every index name that
    /// stands for it; otherwise an index name `name` loses its entry and
    /// its column its index.
    pub open spec fn without_index(self, name: Seq<char>) -> TableView {
        if self.indexes.contains_key(name) {
            TableView {
                indexes: self.indexes.remove(name),
                index_names: Map::new(
                    |k: Seq<char>| self.index_names.contains_key(k) && self.index_names[k] != name,
                    |k: Seq<char>| self.index_names[k],
                ),
                ..self
            }
        } else if self.index_names.contains_key(name) {
            TableView {
                indexes: self.indexes.remove(self.index_names[name]),
                index_names: self.index_names.remove(name),
                ..self
            }
        } else {
            self
        }
    }

    /// What an index lookup for the condition `c` yields: nothing unless it
    /// is an equality on an indexed column; else the rows listed under the
    /// value, in the index's order.
    pub open spec fn index_scan(self, c: ConditionView) -> Option<Seq<(u64, Seq<Seq<char>>)>> {
        if c.op != "="@ || !self.indexes.contains_key(c.col) {
            None
        } else {
            Some(
                ids_of(self.indexes[c.col], c.val).map_values(
                    |id: u64| (id, row_values(self.rows, id)),
                ),
            )
        }
    }
}

/// A built index is consistent with the rows it was built from.
pub proof fn lemma_built_consistent(rows: Seq<(u64, Seq<Seq<char>>)>, p: int)
    requires
        ids_ascending(rows),
    ensures
        index_consistent(rows, p, built_index(rows, p)),
    decreases rows.len(),
{
    if rows.len() > 0 {
        let init = rows.drop_last();
        lemma_built_consistent(init, p);
        let k = init.len() as int;
        assert(insert_point(init, k, rows.last().0)) by {
            assert forall|j: int| 0 <= j < k implies #[trigger] init[j].0 < rows.last().0 by {
                assert(rows[j].0 < rows[k].0);
            }
        }
        lemma_consistent_insert(init, k, p, built_index(init, p), rows.last().0, rows.last().1);
        assert(init.insert(k, rows.last()) =~= rows);
    }
}

/// Adds `id` under `value` to a list of index entries.
pub(crate) fn add_id(entries: &mut Vec<IndexEntry>, value: &String, id: u64)
    requires
        keys_distinct(entries_pairs(old(entries)@)),
    ensures
        keys_distinct(entries_pairs(final(entries)@)),
        to_map(entries_pairs(final(entries)@)) == TableView::index_with(
            to_map(entries_pairs(old(entries)@)),
            value@,
            id,
        ),
{
    let ghost ep = entries_pairs(entries@);
    let ghost m = to_map(ep);
    match find_key(entries, value) {
        Some(e) => {
            proof {
                lemma_map_at(ep, e as int);
            }
            entries[e].ids.push(id);
            proof {
                assert(entries_pairs(entries@) =~= ep.update(e as int, (ep[e as int].0, ep[e as int].1.push(id))));
                lemma_map_update(ep, e as int, ep[e as int].1.push(id));
            }
        },
        None => {
            let ids = vec![id];
            proof {
                assert(ids@ =~= seq![id]);
            }
            let ghost ne = IndexEntry { value: *value, ids };
            entries.push(IndexEntry { value: value.clone(), ids });
            proof {
                assert(entries_pairs(entries@) =~= ep.push((value@, seq![id])));
                assert forall|q: int| 0 <= q < ep.len() implies #[trigger] ep[q].0 != value@ by {
                    assert(old(entries)@[q].key_view() != value@);
                }
                lemma_map_push(ep, value@, seq![id]);
                assert(ids_of(m, value@) =~= Seq::<u64>::empty());
                assert(seq![id] =~= ids_of(m, value@).push(id));
            }
        },
    }
}

impl Table {
    /// The position of the row with id `id`.
    pub fn find_row(&self, id: u64) -> (r: Option<usize>)
        requires
            self.wf(),
        ensures
            match r {
                Some(i) => i < self@.rows.len() && self@.rows[i as int].0 == id,
                None => forall|i: int| 0 <= i < self@.rows.len() ==> #[trigger] self@.rows[i].0 != id,
            },
    {
        let ghost rv = self@.rows;
        let mut lo: usize = 0;
        let mut hi: usize = self.rows.len();
        while lo < hi
            invariant
                rv == rows_view(self.rows@),
                ids_ascending(rv),
                lo <= hi <= rv.len(),
                forall|i: int| 0 <= i < lo ==> #[trigger] rv[i].0 < id,
                forall|i: int| hi <= i < rv.len() ==> #[trigger] rv[i].0 > id,
            decreases hi - lo,
        {
            let mid = lo + (hi - lo) / 2;
            let mid_id = self.rows[mid].id;
            assert(rv[mid as int].0 == mid_id);
            if mid_id == id {
                return Some(mid);
            } else if mid_id < id {
                assert forall|i: int| 0 <= i < mid + 1 implies #[trigger] rv[i].0 < id by {
                    if i < mid {
                        assert(rv[i].0 < rv[mid as int].0);
                    }
                }
                lo = mid + 1;
            } else {
                assert forall|i: int| mid <= i < rv.len() implies #[trigger] rv[i].0 > id by {
                    if i > mid {
                        assert(rv[mid as int].0 < rv[i].0);
                    }
                }
                hi = mid;
            }
        }
        None
    }

    /// Whether the column `column` has an index.
    pub fn has_index(&self, column: &String) -> (r: bool)
        requires
            self.wf(),
        ensures
            r == self@.indexes.contains_key(column@),
    {
        let ghost ip = index_pairs(self.indexes@);
        match find_key(&self.indexes, column) {
            Some(k) => {
                proof {
                    lemma_map_at(ip, k as int);
                }
                true
            },
            None => {
                proof {
                    assert forall|q: int| 0 <= q < ip.len() implies #[trigger] ip[q].0 != column@ by {
                        assert(self.indexes@[q].key_view() != column@);
                    }
                }
                false
            },
        }
    }

    /// Builds the index `index_name` on `column_name` from the rows, replacing
    /// any index on that column. An unknown column is an error.
    pub fn build_index(&mut self, index_name: &str, column_name: &str) -> (r: Result<(), String>)
        requires
            old(self).wf(),
        ensures
            final(self).wf(),
            r is Err <==> position(old(self)@.columns, column_name@) is None,
            r matches Err(e) ==> e@ == "Column not found"@,
            r is Err ==> final(self)@ == old(self)@,
            r is Ok ==> final(self)@ == old(self)@.with_index(index_name@, column_name@),
    {
        let col = column_name.to_string();
        let p = match find_position(&self.columns, &col) {
            Some(p) => p,
            None => {
                return Err("Column not found".to_string());
            },
        };
        let ghost rv = self@.rows;
        let mut entries: Vec<IndexEntry> = Vec::new();
        proof {
            assert(entries_pairs(entries@) =~= Seq::<(Seq<char>, Seq<u64>)>::empty());
            assert(to_map(entries_pairs(entries@)) =~= built_index(rv.take(0), p as int));
        }
        let mut i: usize = 0;
        while i < self.rows.len()
            invariant
                self.wf(),
                rv == self@.rows,
                i <= rv.len(),
                p < self@.columns.len(),
                keys_distinct(entries_pairs(entries@)),
                to_map(entries_pairs(entries@)) == built_index(rv.take(i as int), p as int),
            decreases rv.len() - i,
        {
            assert(self@.rows[i as int].1.len() == self@.columns.len());
            assert(self.rows@[i as int].values@[p as int]@ == rv[i as int].1[p as int]);
            add_id(&mut entries, &self.rows[i].values[p], self.rows[i].id);
            proof {
                assert(rv.take(i + 1).drop_last() =~= rv.take(i as int));
                assert(rv.take(i + 1).last() == rv[i as int]);
            }
            i = i + 1;
        }
        proof {
            assert(rv.take(rv.len() as int) =~= rv);
            lemma_position_facts(self@.columns, col@);
            assert(column_pos(self@.columns, col@) == p);
            lemma_built_consistent(rv, p as int);
        }
        let ghost before = self@;
        let ghost ip = index_pairs(self.indexes@);
        let ghost built = to_map(entries_pairs(entries@));
        match find_key(&self.indexes, &col) {
            Some(k) => {
                self.indexes[k].entries = entries;
                proof {
                    assert(index_pairs(self.indexes@) =~= ip.update(k as int, (ip[k as int].0, built)));
                    lemma_map_update(ip, k as int, built);
                    assert forall|j: int| 0 <= j < self.indexes@.len() implies keys_distinct(
                        entry_pairs(#[trigger] self.indexes@[j]),
                    ) by {
                        if j != k {
                            assert(self.indexes@[j] == old(self).indexes@[j]);
                        } else {
                            assert(entry_pairs(self.indexes@[j]) == entries_pairs(entries@));
                        }
                    }
                }
            },
            None => {
                let ghost ci = ColumnIndex { column: col, entries };
                self.indexes.push(ColumnIndex { column: col, entries });
                proof {
                    assert(index_pairs(self.indexes@) =~= ip.push((col@, built)));
                    assert forall|q: int| 0 <= q < ip.len() implies #[trigger] ip[q].0 != col@ by {
                        assert(old(self).indexes@[q].key_view() != col@);
                    }
                    lemma_map_push(ip, col@, built);
                    assert forall|j: int| 0 <= j < self.indexes@.len() implies keys_distinct(
                        entry_pairs(#[trigger] self.indexes@[j]),
                    ) by {
                        if j < ip.len() {
                            assert(self.indexes@[j] == old(self).indexes@[j]);
                        } else {
                            assert(entry_pairs(self.indexes@[j]) == entries_pairs(entries@));
                        }
                    }
                }
            },
        }
        let name = index_name.to_string();
        let ghost np = name_pairs(self.index_name_to_col@);
        match find_key(&self.index_name_to_col, &name) {
            Some(k) => {
                self.index_name_to_col[k].column = column_name.to_string();
                proof {
                    lemma_map_at(np, k as int);
                    assert(name_pairs(self.index_name_to_col@) =~= np.update(k as int, (np[k as int].0, col@)));
                    lemma_map_update(np, k as int, col@);
                }
            },
            None => {
                let c2 = column_name.to_string();
                let ghost nn = IndexName { name, column: c2 };
                self.index_name_to_col.push(IndexName { name, column: c2 });
                proof {
                    assert(name_pairs(self.index_name_to_col@) =~= np.push((name@, col@)));
                    assert forall|q: int| 0 <= q < np.len() implies #[trigger] np[q].0 != name@ by {
                        assert(old(self).index_name_to_col@[q].key_view() != name@);
                    }
                    lemma_map_push(np, name@, col@);
                }
            },
        }
        proof {
            assert(self@.indexes =~= before.indexes.insert(col@, built_index(rv, p as int)));
            assert(self@ == old(self)@.with_index(index_name@, column_name@));
            assert forall|c: Seq<char>| #[trigger] self@.indexes.contains_key(c) implies position(self@.columns, c) is Some by {
                if c != col@ {
                    assert(before.indexes.contains_key(c));
                }
            }
            assert forall|c: Seq<char>| #[trigger] self@.indexes.contains_key(c) implies index_consistent(
                self@.rows,
                column_pos(self@.columns, c),
                self@.indexes[c],
            ) by {
                if c != col@ {
                    assert(before.indexes.contains_key(c));
                }
            }
        }
        Ok(())
    }

    /// Drops the index called `name`, first taken as an indexed column, then
    /// as an index name.
    pub fn drop_index(&mut self, name: &str)
        requires
            old(self).wf(),
        ensures
            final(self).wf(),
            final(self)@ == old(self)@.without_index(name@),
    {
        let n = name.to_string();
        let ghost before = self@;
        let ghost ip = index_pairs(self.indexes@);
        let ghost np = name_pairs(self.index_name_to_col@);
        match find_key(&self.indexes, &n) {
            Some(k) => {
                proof {
                    lemma_map_at(ip, k as int);
                    lemma_map_remove(ip, k as int);
                }
                self.indexes.remove(k);
                proof {
                    assert(index_pairs(self.indexes@) =~= ip.remove(k as int));
                    assert forall|j: int| 0 <= j < self.indexes@.len() implies keys_distinct(
                        entry_pairs(#[trigger] self.indexes@[j]),
                    ) by {
                        if j < k {
                            assert(self.indexes@[j] == old(self).indexes@[j]);
                        } else {
                            assert(self.indexes@[j] == old(self).indexes@[j + 1]);
                        }
                    }
                }
                self.remove_names_of(&n);
                proof {
                    assert(self@.indexes =~= before.indexes.remove(n@));
                    assert(self@ == before.without_index(name@));
                }
                return;
            },
            None => {
                proof {
                    assert forall|q: int| 0 <= q < ip.len() implies #[trigger] ip[q].0 != n@ by {
                        assert(old(self).indexes@[q].key_view() != n@);
                    }
                }
            },
        }
        match find_key(&self.index_name_to_col, &n) {
            Some(k) => {
                proof {
                    lemma_map_at(np, k as int);
                    lemma_map_remove(np, k as int);
                }
                let entry = self.index_name_to_col.remove(k);
                proof {
                    assert(name_pairs(self.index_name_to_col@) =~= np.remove(k as int));
                    assert(entry.column@ == before.index_names[n@]);
                }
                match find_key(&self.indexes, &entry.column) {
                    Some(k2) => {
                        proof {
                            lemma_map_at(ip, k2 as int);
                            lemma_map_remove(ip, k2 as int);
                        }
                        self.indexes.remove(k2);
                        proof {
                            assert(index_pairs(self.indexes@) =~= ip.remove(k2 as int));
                            assert forall|j: int| 0 <= j < self.indexes@.len() implies keys_distinct(
                                entry_pairs(#[trigger] self.indexes@[j]),
                            ) by {
                                if j < k2 {
                                    assert(self.indexes@[j] == old(self).indexes@[j]);
                                } else {
                                    assert(self.indexes@[j] == old(self).indexes@[j + 1]);
                                }
                            }
                            assert(self@.indexes =~= before.indexes.remove(entry.column@));
                        }
                    },
                    None => {
                        proof {
                            assert forall|q: int| 0 <= q < ip.len() implies #[trigger] ip[q].0 != entry.column@ by {
                                assert(old(self).indexes@[q].key_view() != entry.column@);
                            }
                            assert(!before.indexes.contains_key(entry.column@));
                            assert(self@.indexes =~= before.indexes.remove(entry.column@));
                        }
                    },
                }
                proof {
                    assert(self@ == before.without_index(name@));
                }
            },
            None => {
                proof {
                    assert forall|q: int| 0 <= q < np.len() implies #[trigger] np[q].0 != n@ by {
                        assert(old(self).index_name_to_col@[q].key_view() != n@);
                    }
                }
            },
        }
    }

    /// Removes every index name that stands for the column `col`.
    fn remove_names_of(&mut self, col: &String)
        requires
            keys_distinct(name_pairs(old(self).index_name_to_col@)),
        ensures
            final(self).columns == old(self).columns,
            final(self).rows == old(self).rows,
            final(self).next_id == old(self).next_id,
            final(self).indexes == old(self).indexes,
            keys_distinct(name_pairs(final(self).index_name_to_col@)),
            to_map(name_pairs(final(self).index_name_to_col@)) == Map::new(
                |k: Seq<char>| old(self)@.index_names.contains_key(k) && old(self)@.index_names[k] != col@,
                |k: Seq<char>| old(self)@.index_names[k],
            ),
    {
        let ghost orig = to_map(name_pairs(self.index_name_to_col@));
        let ghost target = Map::new(
            |k: Seq<char>| orig.contains_key(k) && orig[k] != col@,
            |k: Seq<char>| orig[k],
        );
        let mut i: usize = 0;
        while i < self.index_name_to_col.len()
            invariant
                self.columns == old(self).columns,
                self.rows == old(self).rows,
                self.next_id == old(self).next_id,
                self.indexes == old(self).indexes,
                orig == to_map(name_pairs(old(self).index_name_to_col@)),
                i <= self.index_name_to_col@.len(),
                keys_distinct(name_pairs(self.index_name_to_col@)),
                forall|j: int| 0 <= j < i ==> (#[trigger] self.index_name_to_col@[j]).column@ != col@,
                forall|k: Seq<char>| #[trigger] to_map(name_pairs(self.index_name_to_col@)).contains_key(k)
                    ==> orig.contains_key(k) && to_map(name_pairs(self.index_name_to_col@))[k] == orig[k],
                forall|k: Seq<char>| orig.contains_key(k) && orig[k] != col@ ==> #[trigger] to_map(
                    name_pairs(self.index_name_to_col@),
                ).contains_key(k),
            decreases self.index_name_to_col@.len() - i,
        {
            let ghost cur = name_pairs(self.index_name_to_col@);
            if self.index_name_to_col[i].column == *col {
                proof {
                    lemma_map_at(cur, i as int);
                    lemma_map_remove(cur, i as int);
                }
                let ghost prevv = self.index_name_to_col@;
                self.index_name_to_col.remove(i);
                proof {
                    assert(name_pairs(self.index_name_to_col@) =~= cur.remove(i as int));
                    assert forall|j: int| 0 <= j < i implies (#[trigger] self.index_name_to_col@[j]).column@ != col@ by {
                        assert(self.index_name_to_col@[j] == prevv[j]);
                    }
                }
            } else {
                i = i + 1;
            }
        }
        proof {
            let fin = to_map(name_pairs(self.index_name_to_col@));
            assert forall|k: Seq<char>| #[trigger] fin.contains_key(k) implies fin[k] != col@ by {
                let pairs = name_pairs(self.index_name_to_col@);
                let j = choose|j: int| 0 <= j < pairs.len() && #[trigger] pairs[j].0 == k;
                lemma_map_at(pairs, j);
                assert(self.index_name_to_col@[j].column@ != col@);
            }
            assert(fin =~= target);
        }
    }

    /// Looks up the rows that an index lists for an equality condition.
    /// `None` when the condition is no equality or its column has no index.
    pub fn scan_with_index(&self, cond: &Condition) -> (r: Option<(Vec<(u64, &Vec<String>)>, usize)>)
        requires
            self.wf(),
        ensures
            match r {
                None => self@.index_scan(cond@) is None,
                Some((v, n)) => n == v@.len() && self@.index_scan(cond@) == Some(
                    v@.map_values(|q: (u64, &Vec<String>)| (q.0, q.1.deep_view())),
                ),
            },
    {
        proof {
            reveal_strlit("=");
        }
        if !str_equal(cond.op.as_str(), "=") {
            return None;
        }
        let ghost ip = index_pairs(self.indexes@);
        let k = match find_key(&self.indexes, &cond.col) {
            Some(k) => k,
            None => {
                proof {
                    assert forall|q: int| 0 <= q < ip.len() implies #[trigger] ip[q].0 != cond.col@ by {
                        assert(self.indexes@[q].key_view() != cond.col@);
                    }
                }
                return None;
            },
        };
        proof {
            lemma_map_at(ip, k as int);
        }
        let ghost m = self@.indexes[cond.col@];
        let ghost ep = entry_pairs(self.indexes@[k as int]);
        let ghost rv = self@.rows;
        let ghost p = column_pos(self@.columns, cond.col@);
        match find_key(&self.indexes[k].entries, &cond.val) {
            None => {
                proof {
                    assert forall|q: int| 0 <= q < ep.len() implies #[trigger] ep[q].0 != cond.val@ by {
                        assert(self.indexes@[k as int].entries@[q].key_view() != cond.val@);
                    }
                    let out: Seq<(u64, Seq<Seq<char>>)> = Seq::empty();
                    assert(ids_of(m, cond.val@) =~= Seq::<u64>::empty());
                }
                let out: Vec<(u64, &Vec<String>)> = Vec::new();
                proof {
                    assert(out@.map_values(|q: (u64, &Vec<String>)| (q.0, q.1.deep_view())) =~= ids_of(m, cond.val@).map_values(
                        |id: u64| (id, row_values(rv, id)),
                    ));
                }
                Some((out, 0))
            },
            Some(e) => {
                proof {
                    lemma_map_at(ep, e as int);
                    assert(index_consistent(rv, p, m));
                }
                let ids = &self.indexes[k].entries[e].ids;
                let ghost l = ids@;
                assert(l == m[cond.val@]);
                let mut out: Vec<(u64, &Vec<String>)> = Vec::new();
                let mut j: usize = 0;
                while j < ids.len()
                    invariant
                        self.wf(),
                        rv == self@.rows,
                        l == ids@,
                        m.contains_key(cond.val@),
                        l == m[cond.val@],
                        index_consistent(rv, p, m),
                        j <= l.len(),
                        out@.len() == j,
                        forall|q: int| 0 <= q < j ==> (#[trigger] out@[q]).0 == l[q] && out@[q].1.deep_view() == row_values(rv, l[q]),
                    decreases l.len() - j,
                {
                    let id = ids[j];
                    match self.find_row(id) {
                        Some(i) => {
                            proof {
                                let r = choose|r: int| 0 <= r < rv.len() && #[trigger] rv[r].0 == id;
                                if r < i {
                                    assert(rv[r].0 < rv[i as int].0);
                                } else if r > i {
                                    assert(rv[i as int].0 < rv[r].0);
                                }
                                assert(self.rows@[i as int].values.deep_view() == rv[i as int].1);
                            }
                            out.push((id, &self.rows[i].values));
                        },
                        None => {
                            proof {
                                assert(crate::table::row_has(rv, m[cond.val@][j as int], p, cond.val@));
                                assert(false);
                            }
                        },
                    }
                    j = j + 1;
                }
                proof {
                    assert(out@.map_values(|q: (u64, &Vec<String>)| (q.0, q.1.deep_view())) =~= ids_of(m, cond.val@).map_values(
                        |id: u64| (id, row_values(rv, id)),
                    ));
                }
                let n = out.len();
                Some((out, n))
            },
        }
    }
}

} // verus!
