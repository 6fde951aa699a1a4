//! Updating one column of the rows that pass a list of conditions.
use vstd::prelude::*;
use crate::assoc::{find_key, has_key, keys_distinct, lemma_map_at, lemma_map_remove, lemma_map_update, to_map, Keyed};
use crate::condition::{conditions_view, row_passes_all, Condition};
use crate::seqs::{lemma_filter_congruent, lemma_filter_filter, lemma_filter_members, lemma_filter_no_duplicates, lemma_filter_take_step};
use crate::table::{
    column_pos, entry_pairs, ids_ascending, ids_of, index_consistent, index_pairs, row_has,
    rows_view, IndexEntry, IndexMap, Table, TableView,
};
use crate::table_index::{add_id, entries_pairs};
use crate::table_scan::{ids_of_rows, lemma_filter_ascending, passes, passing_rows};
use crate::text::{find_position, lemma_position_facts, position};
use crate::value::{is_value_order, Order};

verus! {

broadcast use {vstd::seq_lib::group_seq_properties, vstd::string::group_string_axioms};

/// A row after the update: a passing row holds `nv` at position `p`.
pub open spec fn updated_row(
    pass: spec_fn((u64, Seq<Seq<char>>)) -> bool,
    p: int,
    nv: Seq<char>,
    r: (u64, Seq<Seq<char>>),
) -> (u64, Seq<Seq<char>>) {
    if pass(r) { (r.0, r.1.update(p, nv)) } else { r }
}

/// The passing rows whose value at `p` changes, in order.
pub open spec fn moved_rows(
    rows: Seq<(u64, Seq<Seq<char>>)>,
    pass: spec_fn((u64, Seq<Seq<char>>)) -> bool,
    p: int,
    nv: Seq<char>,
) -> Seq<(u64, Seq<Seq<char>>)> {
    rows.filter(moves(pass, p, nv))
}

/// A passing row whose value at `p` is not `nv` yet.
pub open spec fn moves(
    pass: spec_fn((u64, Seq<Seq<char>>)) -> bool,
    p: int,
    nv: Seq<char>,
) -> spec_fn((u64, Seq<Seq<char>>)) -> bool {
    |r: (u64, Seq<Seq<char>>)| pass(r) && r.1[p] != nv
}

/// The index after the rows `moved` took the value `nv`: they leave their
/// old lists (a list left empty goes) and join the end of the list of `nv`,
/// in order.
pub open spec fn index_moved(m: IndexMap, moved: Seq<u64>, nv: Seq<char>) -> IndexMap {
    Map::new(
        |v: Seq<char>| if v == nv {
            ids_of(m, nv).len() + moved.len() > 0
        } else {
            m.contains_key(v) && m[v].filter(|x: u64| !moved.contains(x)).len() > 0
        },
        |v: Seq<char>| if v == nv {
            ids_of(m, nv) + moved
        } else {
            m[v].filter(|x: u64| !moved.contains(x))
        },
    )
}

impl TableView {
    /// The table after setting column `col` to `nv` in the rows for which
    /// `pass` holds.
    pub open spec fn with_update(
        self,
        pass: spec_fn((u64, Seq<Seq<char>>)) -> bool,
        col: Seq<char>,
        nv: Seq<char>,
    ) -> TableView {
        let p = column_pos(self.columns, col);
        TableView {
            rows: self.rows.map_values(|r: (u64, Seq<Seq<char>>)| updated_row(pass, p, nv, r)),
            indexes: if self.indexes.contains_key(col) {
                self.indexes.insert(
                    col,
                    index_moved(self.indexes[col], ids_of_rows(moved_rows(self.rows, pass, p, nv)), nv),
                )
            } else {
                self.indexes
            },
            ..self
        }
    }
}

/// An index stays consistent when no row changes its id or its value at the
/// indexed position.
pub proof fn lemma_consistent_same_column(
    rows: Seq<(u64, Seq<Seq<char>>)>,
    rows2: Seq<(u64, Seq<Seq<char>>)>,
    p: int,
    m: IndexMap,
)
    requires
        index_consistent(rows, p, m),
        rows2.len() == rows.len(),
        forall|r: int| 0 <= r < rows.len() ==> (#[trigger] rows2[r]).0 == rows[r].0 && rows2[r].1[p] == rows[r].1[p],
    ensures
        index_consistent(rows2, p, m),
{
    assert forall|v: Seq<char>, j: int| m.contains_key(v) && 0 <= j < m[v].len() implies row_has(
        rows2,
        #[trigger] m[v][j],
        p,
        v,
    ) by {
        assert(row_has(rows, m[v][j], p, v));
        let r = choose|r: int| 0 <= r < rows.len() && #[trigger] rows[r].0 == m[v][j] && rows[r].1[p] == v;
        assert(rows2[r].0 == m[v][j]);
    }
    assert forall|r: int| 0 <= r < rows2.len() implies m.contains_key(#[trigger] rows2[r].1[p])
        && m[rows2[r].1[p]].contains(rows2[r].0) by {
        assert(rows2[r].0 == rows[r].0 && rows2[r].1[p] == rows[r].1[p]);
        assert(m.contains_key(rows[r].1[p]));
    }
}

/// Updating a column keeps a table well formed.
pub proof fn lemma_with_update_wf(
    tv: TableView,
    pass: spec_fn((u64, Seq<Seq<char>>)) -> bool,
    col: Seq<char>,
    nv: Seq<char>,
)
    requires
        tv.wf(),
        position(tv.columns, col) is Some,
    ensures
        tv.with_update(pass, col, nv).wf(),
{
    let rows = tv.rows;
    let p = column_pos(tv.columns, col);
    lemma_position_facts(tv.columns, col);
    let nt = tv.with_update(pass, col, nv);
    let rows2 = nt.rows;
    assert forall|r: int| 0 <= r < rows.len() implies (#[trigger] rows2[r]).0 == rows[r].0
        && rows2[r].1.len() == rows[r].1.len() && (pass(rows[r]) ==> rows2[r].1 == rows[r].1.update(p, nv))
        && (!pass(rows[r]) ==> rows2[r] == rows[r]) by {
        assert(rows2[r] == updated_row(pass, p, nv, rows[r]));
    }
    assert(ids_ascending(rows2)) by {
        assert forall|i: int, j: int| 0 <= i < j < rows2.len() implies #[trigger] rows2[i].0 < #[trigger] rows2[j].0 by {
            assert(rows[i].0 < rows[j].0);
        }
    }
    assert forall|i: int| 0 <= i < rows2.len() implies #[trigger] rows2[i].0 < nt.next_id by {
        assert(rows[i].0 < tv.next_id);
    }
    assert forall|i: int| 0 <= i < rows2.len() implies (#[trigger] rows2[i]).1.len() == nt.columns.len() by {
        assert(rows[i].1.len() == tv.columns.len());
    }
    assert forall|c: Seq<char>| #[trigger] nt.indexes.contains_key(c) implies position(nt.columns, c) is Some by {
        if c != col {
            assert(tv.indexes.contains_key(c));
        }
    }
    assert forall|c: Seq<char>| #[trigger] nt.indexes.contains_key(c) implies index_consistent(
        rows2,
        column_pos(nt.columns, c),
        nt.indexes[c],
    ) by {
        let pc = column_pos(tv.columns, c);
        if c != col {
            assert(tv.indexes.contains_key(c));
            lemma_position_facts(tv.columns, c);
            assert(pc != p) by {
                if pc == p {
                    assert(tv.columns[p] == col && tv.columns[pc] == c);
                }
            }
            assert forall|r: int| 0 <= r < rows.len() implies (#[trigger] rows2[r]).0 == rows[r].0 && rows2[r].1[pc] == rows[r].1[pc] by {
                assert(rows2[r] == updated_row(pass, p, nv, rows[r]));
            }
            lemma_consistent_same_column(rows, rows2, pc, tv.indexes[c]);
        } else {
            lemma_moved_consistent(rows, pass, p, nv, tv.indexes[col]);
        }
    }
}

/// The moved index is consistent with the updated rows.
pub proof fn lemma_moved_consistent(
    rows: Seq<(u64, Seq<Seq<char>>)>,
    pass: spec_fn((u64, Seq<Seq<char>>)) -> bool,
    p: int,
    nv: Seq<char>,
    m: IndexMap,
)
    requires
        ids_ascending(rows),
        forall|i: int| 0 <= i < rows.len() ==> p < (#[trigger] rows[i]).1.len(),
        0 <= p,
        index_consistent(rows, p, m),
    ensures
        index_consistent(
            rows.map_values(|r: (u64, Seq<Seq<char>>)| updated_row(pass, p, nv, r)),
            p,
            index_moved(m, ids_of_rows(moved_rows(rows, pass, p, nv)), nv),
        ),
{
    let rows2 = rows.map_values(|r: (u64, Seq<Seq<char>>)| updated_row(pass, p, nv, r));
    let mp = moves(pass, p, nv);
    let mr = rows.filter(mp);
    let moved = ids_of_rows(mr);
    let m2 = index_moved(m, moved, nv);
    let nm = |x: u64| !moved.contains(x);
    lemma_filter_members(rows, mp);
    lemma_filter_ascending(rows, mp);
    // moved ids are the ids of moved rows
    assert forall|x: u64| #[trigger] moved.contains(x) <==> exists|r: int| 0 <= r < rows.len() && rows[r].0 == x && mp(rows[r]) by {
        if moved.contains(x) {
            let d = choose|d: int| 0 <= d < moved.len() && moved[d] == x;
            assert(rows.contains(mr[d]));
            let r = choose|r: int| 0 <= r < rows.len() && rows[r] == mr[d];
            assert(rows[r].0 == x && mp(rows[r]));
        }
        if exists|r: int| 0 <= r < rows.len() && rows[r].0 == x && mp(rows[r]) {
            let r = choose|r: int| 0 <= r < rows.len() && rows[r].0 == x && mp(rows[r]);
            assert(mr.contains(rows[r]));
            let d = choose|d: int| 0 <= d < mr.len() && mr[d] == rows[r];
            assert(moved[d] == x);
        }
    }
    // ids are unique
    assert forall|a: int, b: int| 0 <= a < rows.len() && 0 <= b < rows.len() && #[trigger] rows[a].0 == #[trigger] rows[b].0 implies a == b by {
        if a < b {
            assert(rows[a].0 < rows[b].0);
        } else if b < a {
            assert(rows[b].0 < rows[a].0);
        }
    }
    assert(moved.no_duplicates()) by {
        assert forall|i: int, j: int| 0 <= i < moved.len() && 0 <= j < moved.len() && i != j implies moved[i] != moved[j] by {
            if i < j {
                assert(mr[i].0 < mr[j].0);
            } else {
                assert(mr[j].0 < mr[i].0);
            }
        }
    }
    assert forall|r: int| 0 <= r < rows.len() implies (#[trigger] rows2[r]) == updated_row(pass, p, nv, rows[r]) by {}
    assert forall|v: Seq<char>| #[trigger] m2.contains_key(v) implies m2[v].len() > 0 && m2[v].no_duplicates() by {
        if v == nv {
            let a = ids_of(m, nv);
            assert forall|i: int, j: int| 0 <= i < a.len() && 0 <= j < moved.len() implies a[i] != moved[j] by {
                assert(row_has(rows, m[nv][i], p, nv));
                let r = choose|r: int| 0 <= r < rows.len() && #[trigger] rows[r].0 == m[nv][i] && rows[r].1[p] == nv;
                assert(moved.contains(moved[j]));
                let r2 = choose|r2: int| 0 <= r2 < rows.len() && rows[r2].0 == moved[j] && mp(rows[r2]);
                if a[i] == moved[j] {
                    assert(rows[r].0 == rows[r2].0);
                }
            }
            vstd::seq_lib::lemma_no_dup_in_concat(a, moved);
        } else {
            lemma_filter_no_duplicates(m[v], nm);
        }
    }
    assert forall|v: Seq<char>, j: int| m2.contains_key(v) && 0 <= j < m2[v].len() implies row_has(
        rows2,
        #[trigger] m2[v][j],
        p,
        v,
    ) by {
        let id = m2[v][j];
        if v == nv {
            let a = ids_of(m, nv);
            if j < a.len() {
                assert(id == m[nv][j]);
                assert(row_has(rows, m[nv][j], p, nv));
                let r = choose|r: int| 0 <= r < rows.len() && #[trigger] rows[r].0 == m[nv][j] && rows[r].1[p] == nv;
                assert(rows2[r].0 == id && rows2[r].1[p] == nv);
            } else {
                assert(id == moved[j - a.len()]);
                assert(moved.contains(id));
                let r = choose|r: int| 0 <= r < rows.len() && rows[r].0 == id && mp(rows[r]);
                assert(rows2[r].0 == id && rows2[r].1[p] == nv);
            }
        } else {
            lemma_filter_members(m[v], nm);
            assert(m[v].contains(id) && nm(id));
            let jj = choose|jj: int| 0 <= jj < m[v].len() && m[v][jj] == id;
            assert(row_has(rows, m[v][jj], p, v));
            let r = choose|r: int| 0 <= r < rows.len() && #[trigger] rows[r].0 == id && rows[r].1[p] == v;
            if pass(rows[r]) {
                assert(mp(rows[r]));
                assert(moved.contains(id));
            }
            assert(rows2[r] == rows[r]);
        }
    }
    assert forall|r: int| 0 <= r < rows2.len() implies m2.contains_key(#[trigger] rows2[r].1[p])
        && m2[rows2[r].1[p]].contains(rows2[r].0) by {
        let id = rows[r].0;
        let w = rows[r].1[p];
        assert(m.contains_key(w) && m[w].contains(id));
        let jj = choose|jj: int| 0 <= jj < m[w].len() && m[w][jj] == id;
        if pass(rows[r]) {
            assert(rows2[r].1[p] == nv);
            if w == nv {
                assert(ids_of(m, nv) == m[nv]);
                assert(m2.contains_key(nv));
                assert(m2[nv][jj] == id);
                assert(m2[nv].contains(id));
            } else {
                assert(mp(rows[r]));
                assert(moved.contains(id));
                let d = choose|d: int| 0 <= d < moved.len() && moved[d] == id;
                assert(m2.contains_key(nv));
                assert(m2[nv][ids_of(m, nv).len() + d] == id);
                assert(m2[nv].contains(id));
            }
        } else {
            assert(rows2[r] == rows[r]);
            if w == nv {
                assert(ids_of(m, nv) == m[nv]);
                assert(m2[nv][jj] == id);
                assert(m2.contains_key(nv));
                assert(m2[nv].contains(id));
            } else {
                assert(!moved.contains(id)) by {
                    if moved.contains(id) {
                        let r2 = choose|r2: int| 0 <= r2 < rows.len() && rows[r2].0 == id && mp(rows[r2]);
                        assert(rows[r2].0 == rows[r].0);
                    }
                }
                lemma_filter_members(m[w], nm);
                assert(m[w].filter(nm).contains(m[w][jj]));
                assert(m2.contains_key(w));
                assert(m2[w].contains(id));
            }
        }
    }
}

/// The index after the id `id` leaves the list of `w` (the list goes when
/// left empty).
pub open spec fn index_without_id(m: IndexMap, w: Seq<char>, id: u64) -> IndexMap {
    if m[w].filter(other_than(id)).len() == 0 {
        m.remove(w)
    } else {
        m.insert(w, m[w].filter(other_than(id)))
    }
}

/// Every id but `id`.
pub open spec fn other_than(id: u64) -> spec_fn(u64) -> bool {
    |x: u64| x != id
}

/// Moving one more row is one step: leave the old list, join the new one.
pub proof fn lemma_move_step(m0: IndexMap, moved: Seq<u64>, nv: Seq<char>, w: Seq<char>, id: u64)
    requires
        w != nv,
        !moved.contains(id),
        m0.contains_key(w),
        m0[w].contains(id),
        forall|v: Seq<char>| #[trigger] m0.contains_key(v) && m0[v].contains(id) ==> v == w,
    ensures
        index_moved(m0, moved.push(id), nv) == TableView::index_with(
            index_without_id(index_moved(m0, moved, nv), w, id),
            nv,
            id,
        ),
{
    let mi = index_moved(m0, moved, nv);
    let lhs = index_moved(m0, moved.push(id), nv);
    let nm = |x: u64| !moved.contains(x);
    let nm2 = |x: u64| !moved.push(id).contains(x);
    let ni = other_than(id);
    // w's list keeps `id` after filtering by `moved`
    lemma_filter_members(m0[w], nm);
    let jj = choose|jj: int| 0 <= jj < m0[w].len() && m0[w][jj] == id;
    assert(m0[w].filter(nm).contains(m0[w][jj]));
    assert(mi.contains_key(w));
    let mid = index_without_id(mi, w, id);
    let rhs = TableView::index_with(mid, nv, id);
    lemma_filter_filter(m0[w], nm, ni);
    assert forall|j: int| 0 <= j < m0[w].len() implies (|x: u64| nm(x) && ni(x))(#[trigger] m0[w][j]) == nm2(m0[w][j]) by {
        let x = m0[w][j];
        assert(moved.push(id).contains(x) <==> (moved.contains(x) || x == id)) by {
            if moved.push(id).contains(x) {
                let q = choose|q: int| 0 <= q < moved.len() + 1 && moved.push(id)[q] == x;
                if q < moved.len() {
                    assert(moved[q] == x);
                }
            }
            if moved.contains(x) {
                let q = choose|q: int| 0 <= q < moved.len() && moved[q] == x;
                assert(moved.push(id)[q] == x);
            }
            if x == id {
                assert(moved.push(id)[moved.len() as int] == x);
            }
        }
    }
    lemma_filter_congruent(m0[w], |x: u64| nm(x) && ni(x), nm2);
    assert(mi[w].filter(ni) == m0[w].filter(nm2));
    assert forall|v: Seq<char>| v != w && v != nv && m0.contains_key(v) implies #[trigger] m0[v].filter(nm2) == m0[v].filter(nm) by {
        assert forall|j: int| 0 <= j < m0[v].len() implies nm2(#[trigger] m0[v][j]) == nm(m0[v][j]) by {
            let x = m0[v][j];
            if x == id {
                assert(m0[v].contains(id));
            }
            assert(moved.push(id).contains(x) <==> (moved.contains(x) || x == id)) by {
                if moved.push(id).contains(x) {
                    let q = choose|q: int| 0 <= q < moved.len() + 1 && moved.push(id)[q] == x;
                    if q < moved.len() {
                        assert(moved[q] == x);
                    }
                }
                if moved.contains(x) {
                    let q = choose|q: int| 0 <= q < moved.len() && moved[q] == x;
                    assert(moved.push(id)[q] == x);
                }
            }
        }
        lemma_filter_congruent(m0[v], nm2, nm);
    }
    assert(ids_of(mid, nv) == ids_of(mi, nv));
    assert(ids_of(mi, nv) =~= ids_of(m0, nv) + moved);
    assert(ids_of(m0, nv) + moved.push(id) =~= (ids_of(m0, nv) + moved).push(id));
    assert forall|v: Seq<char>| #[trigger] lhs.contains_key(v) <==> rhs.contains_key(v) by {
        if v == nv {
        } else if v == w {
            if mi[w].filter(ni).len() == 0 {
                assert(!mid.contains_key(w));
            } else {
                assert(mid.contains_key(w));
            }
        } else {
            assert(mid.contains_key(v) == mi.contains_key(v));
            if m0.contains_key(v) {
                assert(m0[v].filter(nm2) == m0[v].filter(nm));
            }
        }
    }
    assert forall|v: Seq<char>| #[trigger] lhs.contains_key(v) implies lhs[v] == rhs[v] by {
        if v == nv {
            assert(rhs[nv] == ids_of(mid, nv).push(id));
            assert(lhs[nv] == ids_of(m0, nv) + moved.push(id));
        } else if v == w {
            assert(lhs[w] == m0[w].filter(nm2));
            assert(mid.contains_key(w));
            assert(mid[w] == mi[w].filter(ni));
        } else {
            assert(m0[v].filter(nm2) == m0[v].filter(nm));
            assert(mid[v] == mi[v]);
        }
    }
    assert(lhs =~= rhs);
}

/// The ids of `ids` other than `id`, in order.
fn ids_except(ids: &Vec<u64>, id: u64) -> (r: Vec<u64>)
    ensures
        r@ == ids@.filter(other_than(id)),
{
    let ghost ni = other_than(id);
    let mut r: Vec<u64> = Vec::new();
    let mut i: usize = 0;
    proof {
        reveal(Seq::filter);
        assert(ids@.take(0) =~= Seq::<u64>::empty());
    }
    while i < ids.len()
        invariant
            i <= ids@.len(),
            ni == other_than(id),
            r@ == ids@.take(i as int).filter(ni),
        decreases ids@.len() - i,
    {
        proof {
            lemma_filter_take_step(ids@, ni, i as int);
        }
        if ids[i] != id {
            r.push(ids[i]);
        }
        i = i + 1;
    }
    assert(ids@.take(ids@.len() as int) =~= ids@);
    r
}

/// Moves the id `id` from the list of `w` to the end of the list of `nv`.
fn move_id(entries: &mut Vec<IndexEntry>, w: &String, nv: &String, id: u64)
    requires
        keys_distinct(entries_pairs(old(entries)@)),
        to_map(entries_pairs(old(entries)@)).contains_key(w@),
    ensures
        keys_distinct(entries_pairs(final(entries)@)),
        to_map(entries_pairs(final(entries)@)) == TableView::index_with(
            index_without_id(to_map(entries_pairs(old(entries)@)), w@, id),
            nv@,
            id,
        ),
{
    let ghost ep = entries_pairs(entries@);
    let ghost m = to_map(ep);
    match find_key(entries, w) {
        Some(e) => {
            proof {
                lemma_map_at(ep, e as int);
            }
            let kept = ids_except(&entries[e].ids, id);
            if kept.len() == 0 {
                proof {
                    lemma_map_remove(ep, e as int);
                }
                entries.remove(e);
                proof {
                    assert(entries_pairs(entries@) =~= ep.remove(e as int));
                }
            } else {
                entries[e].ids = kept;
                proof {
                    assert(entries_pairs(entries@) =~= ep.update(e as int, (ep[e as int].0, kept@)));
                    lemma_map_update(ep, e as int, kept@);
                }
            }
            proof {
                assert(to_map(entries_pairs(entries@)) == index_without_id(m, w@, id));
            }
            add_id(entries, nv, id);
        },
        None => {
            proof {
                let q = choose|q: int| 0 <= q < ep.len() && #[trigger] ep[q].0 == w@;
                assert(old(entries)@[q].key_view() == w@);
            }
        },
    }
}

impl Table {
    /// Sets the column `set_col` to `set_val` in every row that passes all
    /// conditions and returns how many rows passed; the index on that column
    /// follows. An unknown column is an error.
    pub fn update_rows<O: Fn(&str, &str) -> Option<Order>>(
        &mut self,
        conditions: &Vec<Condition>,
        set_col: &str,
        set_val: &str,
        order: &O,
    ) -> (r: Result<usize, String>)
        requires
            old(self).wf(),
            is_value_order(*order),
        ensures
            final(self).wf(),
            r is Err <==> position(old(self)@.columns, set_col@) is None,
            r matches Err(e) ==> e@ == "SET column not found"@,
            r is Err ==> final(self)@ == old(self)@,
            r matches Ok(n) ==> n == passing_rows(*order, old(self)@, conditions_view(conditions@)).len()
                && final(self)@ == old(self)@.with_update(
                passes(*order, old(self)@.columns, conditions_view(conditions@)),
                set_col@,
                set_val@,
            ),
    {
        let sc = set_col.to_string();
        let p = match find_position(&self.columns, &sc) {
            Some(p) => p,
            None => {
                return Err("SET column not found".to_string());
            },
        };
        let nv = set_val.to_string();
        let ghost tv = self@;
        let ghost rv = self@.rows;
        let ghost pred = passes(*order, self@.columns, conditions_view(conditions@));
        let ghost mp = moves(pred, p as int, nv@);
        let ghost old_pairs = index_pairs(self.indexes@);
        proof {
            lemma_position_facts(tv.columns, sc@);
            assert(column_pos(tv.columns, sc@) == p);
        }
        let ix = find_key(&self.indexes, &sc);
        let ghost m0 = if tv.indexes.contains_key(sc@) { tv.indexes[sc@] } else { Map::empty() };
        proof {
            match ix {
                Some(k) => {
                    lemma_map_at(old_pairs, k as int);
                },
                None => {
                    assert forall|q: int| 0 <= q < old_pairs.len() implies #[trigger] old_pairs[q].0 != sc@ by {
                        assert(old(self).indexes@[q].key_view() != sc@);
                    }
                },
            }
            reveal(Seq::filter);
            assert(rv.take(0) =~= Seq::<(u64, Seq<Seq<char>>)>::empty());
            assert(index_moved(m0, ids_of_rows(rv.take(0).filter(mp)), nv@) =~= m0) by {
                if ix is Some {
                    assert(index_consistent(rv, p as int, m0));
                    assert forall|v: Seq<char>| #[trigger] m0.contains_key(v) implies m0[v].filter(|x: u64| !Seq::<u64>::empty().contains(x)) == m0[v] by {
                        crate::seqs::lemma_filter_all(m0[v], |x: u64| !Seq::<u64>::empty().contains(x));
                    }
                    assert(ids_of_rows(rv.take(0).filter(mp)) =~= Seq::<u64>::empty());
                    assert(ids_of(m0, nv@) + Seq::<u64>::empty() =~= ids_of(m0, nv@));
                }
            }
        }
        let mut count: usize = 0;
        let mut i: usize = 0;
        while i < self.rows.len()
            invariant
                tv == old(self)@,
                rv == tv.rows,
                tv.wf(),
                old(self).wf(),
                is_value_order(*order),
                pred == passes(*order, tv.columns, conditions_view(conditions@)),
                mp == moves(pred, p as int, nv@),
                p < tv.columns.len(),
                p as int == column_pos(tv.columns, sc@),
                nv@ == set_val@,
                sc@ == set_col@,
                self.columns == old(self).columns,
                self.next_id == old(self).next_id,
                self.index_name_to_col == old(self).index_name_to_col,
                self.indexes@.len() == old(self).indexes@.len(),
                old_pairs == index_pairs(old(self).indexes@),
                keys_distinct(old_pairs),
                i <= rv.len(),
                count == rv.take(i as int).filter(pred).len(),
                self.rows@.len() == rv.len(),
                forall|j: int| 0 <= j < i ==> #[trigger] rows_view(self.rows@)[j] == updated_row(pred, p as int, nv@, rv[j]),
                forall|j: int| i <= j < rv.len() ==> #[trigger] rows_view(self.rows@)[j] == rv[j],
                match ix {
                    Some(k) => {
                        &&& k < self.indexes@.len()
                        &&& old_pairs[k as int].0 == sc@
                        &&& tv.indexes.contains_key(sc@)
                        &&& m0 == tv.indexes[sc@]
                        &&& self.indexes@[k as int].column == old(self).indexes@[k as int].column
                        &&& keys_distinct(entry_pairs(self.indexes@[k as int]))
                        &&& to_map(entry_pairs(self.indexes@[k as int])) == index_moved(
                            m0,
                            ids_of_rows(rv.take(i as int).filter(mp)),
                            nv@,
                        )
                        &&& forall|j: int| 0 <= j < self.indexes@.len() && j != k ==> #[trigger] self.indexes@[j] == old(self).indexes@[j]
                    },
                    None => {
                        &&& self.indexes == old(self).indexes
                        &&& !tv.indexes.contains_key(sc@)
                    },
                },
            decreases rv.len() - i,
        {
            proof {
                lemma_filter_take_step(rv, pred, i as int);
                lemma_filter_take_step(rv, mp, i as int);
                assert(rv[i as int].1.len() == tv.columns.len());
                assert(rows_view(self.rows@)[i as int] == rv[i as int]);
            }
            let ghost rb = self.rows@;
            if row_passes_all(&self.rows[i].values, &self.columns, conditions, order) {
                count = count + 1;
                proof {
                    crate::seqs::lemma_filter_members(rv, pred);
                    assert(rv.take(i + 1).filter(pred).len() <= i + 1) by {
                        rv.take(i + 1).lemma_filter_len(pred);
                    }
                }
                let id = self.rows[i].id;
                if self.rows[i].values[p] != nv {
                    match ix {
                        Some(k) => {
                            let w = self.rows[i].values[p].clone();
                            let ghost mi = to_map(entry_pairs(self.indexes@[k as int]));
                            let ghost moved = ids_of_rows(rv.take(i as int).filter(mp));
                            proof {
                                assert(index_consistent(rv, p as int, m0));
                                assert(m0.contains_key(rv[i as int].1[p as int]));
                                assert(w@ == rv[i as int].1[p as int]);
                                assert(m0[w@].contains(id));
                                assert(!moved.contains(id)) by {
                                    let f = rv.take(i as int).filter(mp);
                                    crate::seqs::lemma_filter_members(rv.take(i as int), mp);
                                    if moved.contains(id) {
                                        let d = choose|d: int| 0 <= d < moved.len() && moved[d] == id;
                                        assert(rv.take(i as int).contains(f[d]));
                                        let q = choose|q: int| 0 <= q < i && rv.take(i as int)[q] == f[d];
                                        assert(rv[q].0 < rv[i as int].0);
                                    }
                                }
                                assert forall|v: Seq<char>| #[trigger] m0.contains_key(v) && m0[v].contains(id) implies v == w@ by {
                                    let jj = choose|jj: int| 0 <= jj < m0[v].len() && m0[v][jj] == id;
                                    assert(row_has(rv, m0[v][jj], p as int, v));
                                    let r = choose|r: int| 0 <= r < rv.len() && #[trigger] rv[r].0 == id && rv[r].1[p as int] == v;
                                    if r < i {
                                        assert(rv[r].0 < rv[i as int].0);
                                    } else if r > i {
                                        assert(rv[i as int].0 < rv[r].0);
                                    }
                                }
                                lemma_move_step(m0, moved, nv@, w@, id);
                                assert(mi.contains_key(w@)) by {
                                    crate::seqs::lemma_filter_members(m0[w@], |x: u64| !moved.contains(x));
                                    let jj = choose|jj: int| 0 <= jj < m0[w@].len() && m0[w@][jj] == id;
                                    assert(m0[w@].filter(|x: u64| !moved.contains(x)).contains(m0[w@][jj]));
                                }
                            }
                            move_id(&mut self.indexes[k].entries, &w, &nv, id);
                            proof {
                                assert(ids_of_rows(rv.take(i + 1).filter(mp)) =~= moved.push(id));
                                assert forall|j: int| 0 <= j < self.indexes@.len() && j != k implies #[trigger] self.indexes@[j] == old(self).indexes@[j] by {}
                            }
                        },
                        None => {},
                    }
                    self.rows[i].values.set(p, nv.clone());
                    proof {
                        assert(self.rows@[i as int].values.deep_view() =~= rv[i as int].1.update(p as int, nv@));
                    }
                } else {
                    proof {
                        assert(self.rows@[i as int].values.deep_view()[p as int] == nv@);
                        assert(rv[i as int].1.update(p as int, nv@) =~= rv[i as int].1);
                    }
                }
            }
            proof {
                assert forall|j: int| 0 <= j < i + 1 implies #[trigger] rows_view(self.rows@)[j] == updated_row(pred, p as int, nv@, rv[j]) by {
                    if j < i {
                        assert(self.rows@[j] == rb[j]);
                        assert(rows_view(rb)[j] == updated_row(pred, p as int, nv@, rv[j]));
                    }
                }
                assert forall|j: int| i + 1 <= j < rv.len() implies #[trigger] rows_view(self.rows@)[j] == rv[j] by {
                    assert(self.rows@[j] == rb[j]);
                    assert(rows_view(rb)[j] == rv[j]);
                }
            }
            i = i + 1;
        }
        proof {
            assert(rv.take(rv.len() as int) =~= rv);
            assert(rows_view(self.rows@) =~= rv.map_values(|r: (u64, Seq<Seq<char>>)| updated_row(pred, p as int, nv@, r)));
            match ix {
                Some(k) => {
                    let np = index_pairs(self.indexes@);
                    assert(np =~= old_pairs.update(k as int, (old_pairs[k as int].0, to_map(entry_pairs(self.indexes@[k as int])))));
                    lemma_map_update(old_pairs, k as int, to_map(entry_pairs(self.indexes@[k as int])));
                    assert forall|j: int| 0 <= j < self.indexes@.len() implies keys_distinct(entry_pairs(#[trigger] self.indexes@[j])) by {
                        if j != k {
                            assert(self.indexes@[j] == old(self).indexes@[j]);
                        }
                    }
                },
                None => {},
            }
            assert(self@ == tv.with_update(pred, set_col@, set_val@));
            lemma_with_update_wf(tv, pred, set_col@, set_val@);
        }
        Ok(count)
    }
}

} // verus!
