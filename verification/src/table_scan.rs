//! Scanning a table with conditions, and deleting the rows that pass them.
use vstd::prelude::*;
use crate::assoc::{has_key, keys_distinct, lemma_map_at, lemma_map_push, to_map};
use crate::condition::{conditions_view, row_passes, row_passes_all, Condition, ConditionView};
use crate::seqs::{lemma_filter_members, lemma_filter_no_duplicates, lemma_filter_take_step};
use crate::table::{
    column_pos, entry_pairs, ids_ascending, ids_of, index_consistent, index_pairs, row_has,
    rows_view, IndexEntry, IndexMap, Row, Table, TableView,
};
use crate::table_index::entries_pairs;
use crate::value::{is_value_order, Order};

verus! {

broadcast use vstd::seq_lib::group_seq_properties;

/// A row (id, values) passes the conditions.
pub open spec fn passes<O: Fn(&str, &str) -> Option<Order>>(
    order: O,
    columns: Seq<Seq<char>>,
    conds: Seq<ConditionView>,
) -> spec_fn((u64, Seq<Seq<char>>)) -> bool {
    |r: (u64, Seq<Seq<char>>)| row_passes(order, r.1, columns, conds)
}

/// The rows that pass the conditions, in order.
pub open spec fn passing_rows<O: Fn(&str, &str) -> Option<Order>>(
    order: O,
    t: TableView,
    conds: Seq<ConditionView>,
) -> Seq<(u64, Seq<Seq<char>>)> {
    t.rows.filter(passes(order, t.columns, conds))
}

/// The ids of a sequence of rows.
pub open spec fn ids_of_rows(rows: Seq<(u64, Seq<Seq<char>>)>) -> Seq<u64> {
    rows.map_values(|r: (u64, Seq<Seq<char>>)| r.0)
}

/// An index after the rows `dead` are gone: each list loses them, and a
/// list left empty goes.
pub open spec fn index_without(m: IndexMap, dead: Seq<u64>) -> IndexMap {
    Map::new(
        |v: Seq<char>| m.contains_key(v) && m[v].filter(|x: u64| !dead.contains(x)).len() > 0,
        |v: Seq<char>| m[v].filter(|x: u64| !dead.contains(x)),
    )
}

impl TableView {
    /// The table after removing the rows for which `pass` holds.
    pub open spec fn without_rows_where(self, pass: spec_fn((u64, Seq<Seq<char>>)) -> bool) -> TableView {
        let dead = ids_of_rows(self.rows.filter(pass));
        TableView {
            rows: self.rows.filter(|r: (u64, Seq<Seq<char>>)| !pass(r)),
            indexes: Map::new(
                |c: Seq<char>| self.indexes.contains_key(c),
                |c: Seq<char>| index_without(self.indexes[c], dead),
            ),
            ..self
        }
    }
}

/// Filtering rows keeps their ids ascending.
pub proof fn lemma_filter_ascending(rows: Seq<(u64, Seq<Seq<char>>)>, pred: spec_fn((u64, Seq<Seq<char>>)) -> bool)
    requires
        ids_ascending(rows),
    ensures
        ids_ascending(rows.filter(pred)),
    decreases rows.len(),
{
    reveal(Seq::filter);
    if rows.len() > 0 {
        let init = rows.drop_last();
        assert(ids_ascending(init)) by {
            assert forall|i: int, j: int| 0 <= i < j < init.len() implies #[trigger] init[i].0 < #[trigger] init[j].0 by {
                assert(init[i] == rows[i] && init[j] == rows[j]);
            }
        }
        lemma_filter_ascending(init, pred);
        if pred(rows.last()) {
            let f = init.filter(pred);
            lemma_filter_members(init, pred);
            assert forall|j: int| 0 <= j < f.len() implies #[trigger] f[j].0 < rows.last().0 by {
                assert(init.contains(f[j]));
                let q = choose|q: int| 0 <= q < init.len() && init[q] == f[j];
                assert(rows[q] == init[q]);
                assert(rows[q].0 < rows[rows.len() - 1].0);
            }
            let g = f.push(rows.last());
            assert forall|i: int, j: int| 0 <= i < j < g.len() implies #[trigger] g[i].0 < #[trigger] g[j].0 by {
                if j < f.len() {
                    assert(g[i] == f[i] && g[j] == f[j]);
                } else {
                    assert(g[i] == f[i]);
                }
            }
        }
    }
}

/// Removing rows keeps a table well formed.
pub proof fn lemma_without_rows_wf(tv: TableView, pass: spec_fn((u64, Seq<Seq<char>>)) -> bool)
    requires
        tv.wf(),
    ensures
        tv.without_rows_where(pass).wf(),
{
    let rows = tv.rows;
    let keep = |r: (u64, Seq<Seq<char>>)| !pass(r);
    let nt = tv.without_rows_where(pass);
    let rows2 = nt.rows;
    let dead = ids_of_rows(rows.filter(pass));
    assert(rows2 == rows.filter(keep));
    lemma_filter_members(rows, keep);
    lemma_filter_members(rows, pass);
    lemma_filter_ascending(rows, keep);
    assert forall|i: int| 0 <= i < rows2.len() implies #[trigger] rows2[i].0 < nt.next_id
        && rows2[i].1.len() == nt.columns.len() by {
        assert(rows.contains(rows2[i]));
        let q = choose|q: int| 0 <= q < rows.len() && rows[q] == rows2[i];
        assert(rows[q].0 < tv.next_id);
        assert(rows[q].1.len() == tv.columns.len());
    }
    // a kept row's id is not among the dead
    assert forall|q: int| 0 <= q < rows.len() && keep(rows[q]) implies !dead.contains(#[trigger] rows[q].0) by {
        if dead.contains(rows[q].0) {
            let d = choose|d: int| 0 <= d < dead.len() && dead[d] == rows[q].0;
            let f = rows.filter(pass);
            assert(pass(f[d]) && rows.contains(f[d]));
            let q2 = choose|q2: int| 0 <= q2 < rows.len() && rows[q2] == f[d];
            if q2 < q {
                assert(rows[q2].0 < rows[q].0);
            } else if q < q2 {
                assert(rows[q].0 < rows[q2].0);
            }
        }
    }
    assert forall|c: Seq<char>| #[trigger] nt.indexes.contains_key(c) implies index_consistent(
        rows2,
        column_pos(nt.columns, c),
        nt.indexes[c],
    ) by {
        let p = column_pos(tv.columns, c);
        let m = tv.indexes[c];
        assert(index_consistent(rows, p, m));
        let nd = |x: u64| !dead.contains(x);
        let m2 = nt.indexes[c];
        assert(m2 == index_without(m, dead));
        assert forall|v: Seq<char>| #[trigger] m2.contains_key(v) implies m2[v].len() > 0 && m2[v].no_duplicates() by {
            lemma_filter_no_duplicates(m[v], nd);
        }
        assert forall|v: Seq<char>, j: int| m2.contains_key(v) && 0 <= j < m2[v].len() implies row_has(
            rows2,
            #[trigger] m2[v][j],
            p,
            v,
        ) by {
            lemma_filter_members(m[v], nd);
            let id = m2[v][j];
            assert(m[v].contains(id) && nd(id));
            let jj = choose|jj: int| 0 <= jj < m[v].len() && m[v][jj] == id;
            assert(row_has(rows, m[v][jj], p, v));
            let r0 = choose|r: int| 0 <= r < rows.len() && #[trigger] rows[r].0 == id && rows[r].1[p] == v;
            if pass(rows[r0]) {
                assert(rows.filter(pass).contains(rows[r0]));
                let d = choose|d: int| 0 <= d < rows.filter(pass).len() && rows.filter(pass)[d] == rows[r0];
                assert(dead[d] == id);
            }
            assert(rows2.contains(rows[r0]));
            let r = choose|r: int| 0 <= r < rows2.len() && rows2[r] == rows[r0];
            assert(rows2[r].0 == id);
        }
        assert forall|r: int| 0 <= r < rows2.len() implies m2.contains_key(#[trigger] rows2[r].1[p])
            && m2[rows2[r].1[p]].contains(rows2[r].0) by {
            assert(rows.contains(rows2[r]) && keep(rows2[r]));
            let q = choose|q: int| 0 <= q < rows.len() && rows[q] == rows2[r];
            let w = rows[q].1[p];
            assert(m.contains_key(w) && m[w].contains(rows[q].0));
            assert(!dead.contains(rows[q].0));
            let jj = choose|jj: int| 0 <= jj < m[w].len() && m[w][jj] == rows[q].0;
            lemma_filter_members(m[w], nd);
            assert(m[w].filter(nd).contains(m[w][jj]));
        }
    }
}

/// Whether `x` occurs in `v`.
fn contains_id(v: &Vec<u64>, x: u64) -> (r: bool)
    ensures
        r == v@.contains(x),
{
    let mut i: usize = 0;
    while i < v.len()
        invariant
            i <= v@.len(),
            forall|j: int| 0 <= j < i ==> v@[j] != x,
        decreases v@.len() - i,
    {
        if v[i] == x {
            return true;
        }
        i = i + 1;
    }
    false
}

/// The ids of `ids` that are not in `dead`, in order.
fn ids_without(ids: &Vec<u64>, dead: &Vec<u64>) -> (r: Vec<u64>)
    ensures
        r@ == ids@.filter(|x: u64| !dead@.contains(x)),
{
    let ghost nd = |x: u64| !dead@.contains(x);
    let mut r: Vec<u64> = Vec::new();
    let mut i: usize = 0;
    proof {
        reveal(Seq::filter);
        assert(ids@.take(0) =~= Seq::<u64>::empty());
    }
    while i < ids.len()
        invariant
            i <= ids@.len(),
            nd == (|x: u64| !dead@.contains(x)),
            r@ == ids@.take(i as int).filter(nd),
        decreases ids@.len() - i,
    {
        proof {
            lemma_filter_take_step(ids@, nd, i as int);
        }
        if !contains_id(dead, ids[i]) {
            r.push(ids[i]);
        }
        i = i + 1;
    }
    assert(ids@.take(ids@.len() as int) =~= ids@);
    r
}

/// The entries of an index without the ids in `dead`, dropping emptied ones.
fn entries_without(entries: &Vec<IndexEntry>, dead: &Vec<u64>) -> (r: Vec<IndexEntry>)
    requires
        keys_distinct(entries_pairs(entries@)),
    ensures
        keys_distinct(entries_pairs(r@)),
        to_map(entries_pairs(r@)) == index_without(to_map(entries_pairs(entries@)), dead@),
{
    let ghost s = entries_pairs(entries@);
    let mut r: Vec<IndexEntry> = Vec::new();
    let mut i: usize = 0;
    proof {
        assert(entries_pairs(r@) =~= Seq::<(Seq<char>, Seq<u64>)>::empty());
        assert(to_map(entries_pairs(r@)) =~= index_without(to_map(s.take(0)), dead@));
    }
    while i < entries.len()
        invariant
            i <= entries@.len(),
            s == entries_pairs(entries@),
            keys_distinct(s),
            keys_distinct(entries_pairs(r@)),
            forall|j: int| 0 <= j < r@.len() ==> has_key(s.take(i as int), #[trigger] entries_pairs(r@)[j].0),
            to_map(entries_pairs(r@)) == index_without(to_map(s.take(i as int)), dead@),
        decreases entries@.len() - i,
    {
        let ghost prefix = s.take(i as int);
        let ghost prefix2 = s.take(i + 1);
        proof {
            assert(prefix2 =~= prefix.push(s[i as int]));
            assert(keys_distinct(prefix)) by {
                assert forall|a: int, b: int| 0 <= a < prefix.len() && 0 <= b < prefix.len() && a != b implies #[trigger] prefix[a].0 != #[trigger] prefix[b].0 by {
                    assert(prefix[a] == s[a] && prefix[b] == s[b]);
                }
            }
            assert(!has_key(prefix, s[i as int].0)) by {
                if has_key(prefix, s[i as int].0) {
                    let q = choose|q: int| 0 <= q < prefix.len() && #[trigger] prefix[q].0 == s[i as int].0;
                    assert(prefix[q] == s[q]);
                }
            }
            crate::assoc::lemma_map_push(prefix, s[i as int].0, s[i as int].1);
        }
        let kept = ids_without(&entries[i].ids, dead);
        let ghost rp = entries_pairs(r@);
        if kept.len() > 0 {
            let value = entries[i].value.clone();
            let ghost ne = IndexEntry { value, ids: kept };
            r.push(IndexEntry { value, ids: kept });
            proof {
                assert(entries_pairs(r@) =~= rp.push((s[i as int].0, kept@)));
                assert forall|q: int| 0 <= q < rp.len() implies #[trigger] rp[q].0 != s[i as int].0 by {
                    assert(has_key(prefix, rp[q].0));
                }
                lemma_map_push(rp, s[i as int].0, kept@);
            }
        }
        proof {
            assert forall|j: int| 0 <= j < r@.len() implies has_key(prefix2, #[trigger] entries_pairs(r@)[j].0) by {
                if j < rp.len() {
                    assert(entries_pairs(r@)[j] == rp[j]);
                    let q = choose|q: int| 0 <= q < prefix.len() && #[trigger] prefix[q].0 == rp[j].0;
                    assert(prefix2[q] == prefix[q]);
                } else {
                    assert(prefix2[i as int].0 == s[i as int].0);
                }
            }
            assert(to_map(entries_pairs(r@)) =~= index_without(to_map(prefix2), dead@));
        }
        i = i + 1;
    }
    assert(s.take(entries@.len() as int) =~= s);
    r
}

impl Table {
    /// The rows that pass all conditions (a condition that cannot be checked
    /// counts as failed), with the number of rows looked at.
    pub fn scan_with_condition<O: Fn(&str, &str) -> Option<Order>>(
        &self,
        conditions: &Vec<Condition>,
        order: &O,
    ) -> (r: Result<(Vec<(u64, &Vec<String>)>, usize), String>)
        requires
            self.wf(),
            is_value_order(*order),
        ensures
            match r {
                Ok((v, n)) => n == self@.rows.len() && v@.map_values(
                    |q: (u64, &Vec<String>)| (q.0, q.1.deep_view()),
                ) == passing_rows(*order, self@, conditions_view(conditions@)),
                Err(_) => false,
            },
    {
        let ghost rv = self@.rows;
        let ghost pred = passes(*order, self@.columns, conditions_view(conditions@));
        let mut result: Vec<(u64, &Vec<String>)> = Vec::new();
        let scanned = self.rows.len();
        let mut i: usize = 0;
        proof {
            reveal(Seq::filter);
            assert(rv.take(0) =~= Seq::<(u64, Seq<Seq<char>>)>::empty());
            assert(result@.map_values(|q: (u64, &Vec<String>)| (q.0, q.1.deep_view())) =~= rv.take(0).filter(pred));
        }
        while i < self.rows.len()
            invariant
                self.wf(),
                is_value_order(*order),
                rv == self@.rows,
                pred == passes(*order, self@.columns, conditions_view(conditions@)),
                i <= rv.len(),
                result@.map_values(|q: (u64, &Vec<String>)| (q.0, q.1.deep_view())) == rv.take(i as int).filter(pred),
            decreases rv.len() - i,
        {
            proof {
                lemma_filter_take_step(rv, pred, i as int);
                assert(rv[i as int].1.len() == self@.columns.len());
            }
            let ghost before = result@;
            if row_passes_all(&self.rows[i].values, &self.columns, conditions, order) {
                result.push((self.rows[i].id, &self.rows[i].values));
                proof {
                    assert(result@.map_values(|q: (u64, &Vec<String>)| (q.0, q.1.deep_view())) =~= before.map_values(
                        |q: (u64, &Vec<String>)| (q.0, q.1.deep_view()),
                    ).push(rv[i as int]));
                }
            }
            i = i + 1;
        }
        assert(rv.take(rv.len() as int) =~= rv);
        Ok((result, scanned))
    }

    /// Deletes the rows that pass all conditions and returns how many went;
    /// the indexes lose their ids.
    pub fn delete_rows<O: Fn(&str, &str) -> Option<Order>>(
        &mut self,
        conditions: &Vec<Condition>,
        order: &O,
    ) -> (r: Result<usize, String>)
        requires
            old(self).wf(),
            is_value_order(*order),
        ensures
            final(self).wf(),
            match r {
                Ok(n) => n == passing_rows(*order, old(self)@, conditions_view(conditions@)).len()
                    && final(self)@ == old(self)@.without_rows_where(
                    passes(*order, old(self)@.columns, conditions_view(conditions@)),
                ),
                Err(_) => false,
            },
    {
        let ghost rv = self@.rows;
        let ghost pred = passes(*order, self@.columns, conditions_view(conditions@));
        let ghost keep = |r: (u64, Seq<Seq<char>>)| !pred(r);
        let mut dead: Vec<u64> = Vec::new();
        let mut kept: Vec<Row> = Vec::new();
        let mut i: usize = 0;
        proof {
            reveal(Seq::filter);
            assert(rv.take(0) =~= Seq::<(u64, Seq<Seq<char>>)>::empty());
            assert(rows_view(kept@) =~= rv.take(0).filter(keep));
            assert(dead@ =~= ids_of_rows(rv.take(0).filter(pred)));
        }
        while i < self.rows.len()
            invariant
                old(self).wf(),
                self == old(self),
                is_value_order(*order),
                rv == self@.rows,
                pred == passes(*order, self@.columns, conditions_view(conditions@)),
                keep == (|r: (u64, Seq<Seq<char>>)| !pred(r)),
                i <= rv.len(),
                rows_view(kept@) == rv.take(i as int).filter(keep),
                dead@ == ids_of_rows(rv.take(i as int).filter(pred)),
            decreases rv.len() - i,
        {
            proof {
                lemma_filter_take_step(rv, pred, i as int);
                lemma_filter_take_step(rv, keep, i as int);
                assert(rv[i as int].1.len() == self@.columns.len());
            }
            let ghost kb = kept@;
            let ghost db = dead@;
            if row_passes_all(&self.rows[i].values, &self.columns, conditions, order) {
                dead.push(self.rows[i].id);
                proof {
                    assert(dead@ =~= ids_of_rows(rv.take(i + 1).filter(pred)));
                }
            } else {
                let values = self.rows[i].values.clone();
                proof {
                    assert(values.deep_view() =~= self.rows@[i as int].values.deep_view());
                }
                let id = self.rows[i].id;
                let ghost nr = Row { id, values };
                kept.push(Row { id, values });
                proof {
                    assert(rows_view(kept@) =~= rows_view(kb).push(rv[i as int]));
                }
            }
            i = i + 1;
        }
        proof {
            assert(rv.take(rv.len() as int) =~= rv);
        }
        let count = dead.len();
        let ghost before = self@;
        let ghost old_pairs = index_pairs(self.indexes@);
        self.rows = kept;
        let ghost f = |c: Seq<char>, m: IndexMap| index_without(m, dead@);
        let mut k: usize = 0;
        while k < self.indexes.len()
            invariant
                k <= self.indexes@.len(),
                self.indexes@.len() == old_pairs.len(),
                old_pairs == index_pairs(old(self).indexes@),
                keys_distinct(old_pairs),
                f == (|c: Seq<char>, m: IndexMap| index_without(m, dead@)),
                self.columns == old(self).columns,
                self.next_id == old(self).next_id,
                self.index_name_to_col == old(self).index_name_to_col,
                rows_view(self.rows@) == rv.filter(keep),
                forall|j: int| 0 <= j < self.indexes@.len() ==> keys_distinct(entry_pairs(#[trigger] self.indexes@[j])),
                forall|j: int| 0 <= j < k ==> #[trigger] index_pairs(self.indexes@)[j] == (old_pairs[j].0, f(old_pairs[j].0, old_pairs[j].1)),
                forall|j: int| k <= j < self.indexes@.len() ==> #[trigger] self.indexes@[j] == old(self).indexes@[j],
            decreases self.indexes@.len() - k,
        {
            let ghost prev = self.indexes@;
            let ne = entries_without(&self.indexes[k].entries, &dead);
            self.indexes[k].entries = ne;
            proof {
                assert(entry_pairs(self.indexes@[k as int]) == entries_pairs(ne@));
                assert(entry_pairs(prev[k as int]) == entries_pairs(prev[k as int].entries@));
                assert(prev[k as int] == old(self).indexes@[k as int]);
                assert forall|j: int| 0 <= j < self.indexes@.len() && j != k implies #[trigger] self.indexes@[j] == prev[j] by {}
                assert forall|j: int| 0 <= j < self.indexes@.len() implies keys_distinct(entry_pairs(#[trigger] self.indexes@[j])) by {
                    if j != k {
                        assert(self.indexes@[j] == prev[j]);
                    }
                }
                assert forall|j: int| 0 <= j <= k implies #[trigger] index_pairs(self.indexes@)[j] == (old_pairs[j].0, f(old_pairs[j].0, old_pairs[j].1)) by {
                    if j < k {
                        assert(self.indexes@[j] == prev[j]);
                        assert(index_pairs(prev)[j] == (old_pairs[j].0, f(old_pairs[j].0, old_pairs[j].1)));
                    }
                }
            }
            k = k + 1;
        }
        proof {
            crate::assoc::lemma_map_pointwise(old_pairs, index_pairs(self.indexes@), f);
            assert(self@.indexes =~= before.without_rows_where(pred).indexes);
            assert(self@ == before.without_rows_where(pred));
            lemma_without_rows_wf(before, pred);
            assert(ids_of_rows(rv.filter(pred)).len() == rv.filter(pred).len());
        }
        Ok(count)
    }
}

} // verus!
