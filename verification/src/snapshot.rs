//! Checking a database put together from stored parts, as a snapshot gives
//! them, before anything runs on it.
use vstd::prelude::*;
use crate::assoc::{find_key, has_key, has_unique_keys, keys_distinct, keys_unique, lemma_map_at, to_map, Keyed};
use crate::database::{table_pairs, Database, NamedTable};
use crate::stats::{count_pairs, Stats};
use crate::table::{
    column_pos, entry_pairs, ids_ascending, index_consistent, index_pairs, name_pairs, row_has, rows_view,
    ColumnIndex, IndexEntry, Row, Table,
};
use crate::text::{find_position, position};

verus! {

broadcast use vstd::string::group_string_axioms;

/// Elements with unique keys give pairs with distinct keys, and back.
proof fn lemma_unique_pairs<T: Keyed, V>(v: Seq<T>, pairs: Seq<(Seq<char>, V)>)
    requires
        pairs.len() == v.len(),
        forall|i: int| 0 <= i < v.len() ==> #[trigger] pairs[i].0 == v[i].key_view(),
    ensures
        keys_unique(v) == keys_distinct(pairs),
{
    if keys_unique(v) {
        assert forall|i: int, j: int|
            0 <= i < pairs.len() && 0 <= j < pairs.len() && i != j implies #[trigger] pairs[i].0
            != #[trigger] pairs[j].0 by {
            assert(v[i].key_view() != v[j].key_view());
        }
    }
    if keys_distinct(pairs) {
        assert forall|i: int, j: int|
            0 <= i < v.len() && 0 <= j < v.len() && i != j implies #[trigger] v[i].key_view()
            != #[trigger] v[j].key_view() by {
            assert(pairs[i].0 == v[i].key_view());
            assert(pairs[j].0 == v[j].key_view());
        }
    }
}

/// Whether a list of ids holds each id once.
fn ids_once(ids: &Vec<u64>) -> (r: bool)
    ensures
        r == ids@.no_duplicates(),
{
    let mut i: usize = 0;
    while i < ids.len()
        invariant
            i <= ids@.len(),
            forall|a: int, b: int| 0 <= b < a < i ==> #[trigger] ids@[a] != #[trigger] ids@[b],
        decreases ids@.len() - i,
    {
        let mut j: usize = 0;
        while j < i
            invariant
                j <= i < ids@.len(),
                forall|b: int| 0 <= b < j ==> ids@[i as int] != #[trigger] ids@[b],
            decreases i - j,
        {
            if ids[i] == ids[j] {
                return false;
            }
            j = j + 1;
        }
        i = i + 1;
    }
    proof {
        assert forall|a: int, b: int|
            0 <= a < ids@.len() && 0 <= b < ids@.len() && a != b implies ids@[a] != ids@[b] by {
            if a < b {
                assert(ids@[b] != ids@[a]);
            } else {
                assert(ids@[a] != ids@[b]);
            }
        }
    }
    true
}

/// Whether a list of ids holds `id`.
fn holds_id(ids: &Vec<u64>, id: u64) -> (r: bool)
    ensures
        r == ids@.contains(id),
{
    let mut i: usize = 0;
    while i < ids.len()
        invariant
            i <= ids@.len(),
            forall|b: int| 0 <= b < i ==> #[trigger] ids@[b] != id,
        decreases ids@.len() - i,
    {
        if ids[i] == id {
            return true;
        }
        i = i + 1;
    }
    false
}

/// Every row has more than `p` values.
pub open spec fn rows_reach(rows: Seq<(u64, Seq<Seq<char>>)>, p: int) -> bool {
    forall|k: int| 0 <= k < rows.len() ==> (#[trigger] rows[k]).1.len() > p
}

/// Whether some row has id `id` and the value `v` at `p`.
fn row_holds(rows: &Vec<Row>, id: u64, p: usize, v: &String) -> (r: bool)
    requires
        ids_ascending(rows_view(rows@)),
        rows_reach(rows_view(rows@), p as int),
    ensures
        r == row_has(rows_view(rows@), id, p as int, v@),
{
    let ghost rv = rows_view(rows@);
    let mut i: usize = 0;
    while i < rows.len()
        invariant
            i <= rows@.len(),
            rv == rows_view(rows@),
            ids_ascending(rv),
            rows_reach(rv, p as int),
            forall|k: int| 0 <= k < i ==> (#[trigger] rv[k]).0 != id,
        decreases rows@.len() - i,
    {
        if rows[i].id == id {
            assert(rv[i as int].1.len() == rows@[i as int].values@.len());
            let eq = rows[i].values[p] == *v;
            proof {
                assert(rv[i as int].0 == id);
                assert(rv[i as int].1[p as int] == rows@[i as int].values@[p as int]@);
                if !eq {
                    assert forall|k: int| 0 <= k < rv.len() && #[trigger] rv[k].0 == id implies rv[k].1[p as int]
                        != v@ by {
                        if k < i {
                        } else if k > i {
                            assert(rv[i as int].0 < rv[k].0);
                        }
                    }
                }
            }
            return eq;
        }
        i = i + 1;
    }
    false
}

/// An index entry lists ids, each once, of rows that hold its value at `p`.
pub open spec fn entry_ok(rows: Seq<(u64, Seq<Seq<char>>)>, p: int, e: IndexEntry) -> bool {
    &&& e.ids@.len() > 0
    &&& e.ids@.no_duplicates()
    &&& forall|j: int| 0 <= j < e.ids@.len() ==> row_has(rows, #[trigger] e.ids@[j], p, e.value@)
}

/// Whether one index entry is sound for the rows.
fn check_entry(e: &IndexEntry, rows: &Vec<Row>, p: usize) -> (r: bool)
    requires
        ids_ascending(rows_view(rows@)),
        rows_reach(rows_view(rows@), p as int),
    ensures
        r == entry_ok(rows_view(rows@), p as int, *e),
{
    if e.ids.len() == 0 || !ids_once(&e.ids) {
        return false;
    }
    let mut j: usize = 0;
    while j < e.ids.len()
        invariant
            j <= e.ids@.len(),
            ids_ascending(rows_view(rows@)),
            rows_reach(rows_view(rows@), p as int),
            forall|b: int| 0 <= b < j ==> row_has(rows_view(rows@), #[trigger] e.ids@[b], p as int, e.value@),
        decreases e.ids@.len() - j,
    {
        if !row_holds(rows, e.ids[j], p, &e.value) {
            return false;
        }
        j = j + 1;
    }
    true
}

/// Whether the index `ci` on position `p` lists exactly the rows, each once,
/// under the value they hold there.
fn check_index(ci: &ColumnIndex, rows: &Vec<Row>, p: usize) -> (r: bool)
    requires
        keys_unique(ci.entries@),
        ids_ascending(rows_view(rows@)),
        rows_reach(rows_view(rows@), p as int),
    ensures
        r == index_consistent(rows_view(rows@), p as int, to_map(entry_pairs(*ci))),
{
    let ghost rv = rows_view(rows@);
    let ghost pairs = entry_pairs(*ci);
    let ghost m = to_map(pairs);
    proof {
        lemma_unique_pairs(ci.entries@, pairs);
    }
    let mut q: usize = 0;
    while q < ci.entries.len()
        invariant
            q <= ci.entries@.len(),
            rv == rows_view(rows@),
            pairs == entry_pairs(*ci),
            m == to_map(pairs),
            keys_distinct(pairs),
            ids_ascending(rv),
            rows_reach(rv, p as int),
            forall|b: int| 0 <= b < q ==> entry_ok(rv, p as int, #[trigger] ci.entries@[b]),
        decreases ci.entries@.len() - q,
    {
        if !check_entry(&ci.entries[q], rows, p) {
            proof {
                let e = ci.entries@[q as int];
                lemma_map_at(pairs, q as int);
                assert(m.contains_key(e.value@));
                assert(m[e.value@] == e.ids@);
                if e.ids@.len() > 0 && e.ids@.no_duplicates() {
                    let j = choose|j: int| 0 <= j < e.ids@.len() && !row_has(rv, #[trigger] e.ids@[j], p as int, e.value@);
                    assert(!row_has(rv, m[e.value@][j], p as int, e.value@));
                }
            }
            return false;
        }
        q = q + 1;
    }
    let mut k: usize = 0;
    while k < rows.len()
        invariant
            k <= rows@.len(),
            rv == rows_view(rows@),
            pairs == entry_pairs(*ci),
            m == to_map(pairs),
            keys_distinct(pairs),
            rows_reach(rv, p as int),
            forall|b: int|
                0 <= b < k ==> m.contains_key((#[trigger] rv[b]).1[p as int]) && m[rv[b].1[p as int]].contains(
                    rv[b].0,
                ),
        decreases rows@.len() - k,
    {
        assert(rv[k as int].1[p as int] == rows@[k as int].values@[p as int]@);
        match find_key(&ci.entries, &rows[k].values[p]) {
            Some(q) => {
                proof {
                    lemma_map_at(pairs, q as int);
                }
                if !holds_id(&ci.entries[q].ids, rows[k].id) {
                    return false;
                }
            },
            None => {
                proof {
                    if m.contains_key(rv[k as int].1[p as int]) {
                        let i = choose|i: int| 0 <= i < pairs.len() && #[trigger] pairs[i].0 == rv[k as int].1[p as int];
                        assert(ci.entries@[i].key_view() == pairs[i].0);
                    }
                }
                return false;
            },
        }
        k = k + 1;
    }
    proof {
        assert forall|v: Seq<char>| #[trigger] m.contains_key(v) implies m[v].len() > 0 && m[v].no_duplicates()
            && forall|j: int| 0 <= j < m[v].len() ==> row_has(rv, #[trigger] m[v][j], p as int, v) by {
            let i = choose|i: int| 0 <= i < pairs.len() && #[trigger] pairs[i].0 == v;
            lemma_map_at(pairs, i);
            assert(entry_ok(rv, p as int, ci.entries@[i]));
        }
    }
    true
}

/// Whether a table keeps its invariant: names unique in its lists, rows in
/// ascending id order below the next id and as long as the columns, and
/// every index on a column of the table and in agreement with the rows.
pub fn check_table(t: &Table) -> (r: bool)
    ensures
        r == t.wf(),
{
    let ghost tv = t@;
    proof {
        lemma_unique_pairs(t.indexes@, index_pairs(t.indexes@));
        lemma_unique_pairs(t.index_name_to_col@, name_pairs(t.index_name_to_col@));
    }
    if !has_unique_keys(&t.indexes) || !has_unique_keys(&t.index_name_to_col) {
        return false;
    }
    let mut k: usize = 0;
    while k < t.indexes.len()
        invariant
            k <= t.indexes@.len(),
            forall|b: int| 0 <= b < k ==> keys_distinct(entry_pairs(#[trigger] t.indexes@[b])),
        decreases t.indexes@.len() - k,
    {
        proof {
            lemma_unique_pairs(t.indexes@[k as int].entries@, entry_pairs(t.indexes@[k as int]));
        }
        if !has_unique_keys(&t.indexes[k].entries) {
            return false;
        }
        k = k + 1;
    }
    assert(t.shape_ok());
    let mut i: usize = 0;
    while i < t.rows.len()
        invariant
            i <= t.rows@.len(),
            tv == t@,
            ids_ascending(tv.rows.take(i as int)),
            forall|b: int| 0 <= b < i ==> (#[trigger] tv.rows[b]).0 < tv.next_id,
            forall|b: int| 0 <= b < i ==> (#[trigger] tv.rows[b]).1.len() == tv.columns.len(),
        decreases t.rows@.len() - i,
    {
        proof {
            assert(tv.rows[i as int].1.len() == t.rows@[i as int].values@.len());
        }
        if t.rows[i].values.len() != t.columns.len() || t.rows[i].id >= t.next_id {
            proof {
                assert(tv.columns.len() == t.columns@.len());
                assert(tv.rows[i as int].0 == t.rows@[i as int].id);
                assert(tv.rows[i as int].1.len() != tv.columns.len() || tv.rows[i as int].0 >= tv.next_id);
            }
            return false;
        }
        if i > 0 && t.rows[i - 1].id >= t.rows[i].id {
            proof {
                assert(tv.rows[i - 1].0 >= tv.rows[i as int].0);
            }
            return false;
        }
        proof {
            let pre = tv.rows.take(i as int);
            let post = tv.rows.take(i + 1);
            assert forall|a: int, b: int| 0 <= a < b < post.len() implies #[trigger] post[a].0 < #[trigger] post[b].0 by {
                if b < i {
                    assert(pre[a].0 < pre[b].0);
                } else if a < i - 1 {
                    assert(pre[a].0 < pre[i - 1].0);
                }
            }
        }
        i = i + 1;
    }
    proof {
        assert(tv.rows.take(tv.rows.len() as int) =~= tv.rows);
    }
    let mut k: usize = 0;
    while k < t.indexes.len()
        invariant
            k <= t.indexes@.len(),
            tv == t@,
            t.shape_ok(),
            ids_ascending(tv.rows),
            forall|b: int| 0 <= b < tv.rows.len() ==> (#[trigger] tv.rows[b]).1.len() == tv.columns.len(),
            forall|b: int|
                0 <= b < k ==> position(tv.columns, (#[trigger] t.indexes@[b]).column@) is Some && index_consistent(
                    tv.rows,
                    column_pos(tv.columns, t.indexes@[b].column@),
                    to_map(entry_pairs(t.indexes@[b])),
                ),
        decreases t.indexes@.len() - k,
    {
        let ghost ci = t.indexes@[k as int];
        proof {
            lemma_unique_pairs(ci.entries@, entry_pairs(ci));
        }
        match find_position(&t.columns, &t.indexes[k].column) {
            None => {
                proof {
                    lemma_map_at(index_pairs(t.indexes@), k as int);
                    assert(index_pairs(t.indexes@)[k as int].0 == ci.column@);
                    assert(tv.indexes.contains_key(ci.column@));
                    assert(position(tv.columns, ci.column@) is None);
                }
                return false;
            },
            Some(p) => {
                proof {
                    crate::text::lemma_position_facts(tv.columns, ci.column@);
                }
                if !check_index(&t.indexes[k], &t.rows, p) {
                    proof {
                        lemma_map_at(index_pairs(t.indexes@), k as int);
                        assert(index_pairs(t.indexes@)[k as int].0 == ci.column@);
                        assert(tv.indexes.contains_key(ci.column@));
                        assert(tv.indexes[ci.column@] == to_map(entry_pairs(ci)));
                        assert(column_pos(tv.columns, ci.column@) == p);
                        assert(!index_consistent(tv.rows, column_pos(tv.columns, ci.column@), tv.indexes[ci.column@]));
                    }
                    return false;
                }
            },
        }
        k = k + 1;
    }
    proof {
        let ip = index_pairs(t.indexes@);
        assert forall|c: Seq<char>| #[trigger] tv.indexes.contains_key(c) implies position(tv.columns, c) is Some
            && index_consistent(tv.rows, column_pos(tv.columns, c), tv.indexes[c]) by {
            let b = choose|b: int| 0 <= b < ip.len() && #[trigger] ip[b].0 == c;
            lemma_map_at(ip, b);
            assert(t.indexes@[b].column@ == c);
        }
    }
    true
}

impl Database {
    /// A database from stored tables and counts, with no log and no open
    /// transaction; `None` unless table names are unique, every table keeps
    /// its invariant and every count key is unique.
    pub fn from_parts(tables: Vec<NamedTable>, stats: Stats) -> (r: Option<Database>)
        ensures
            match r {
                Some(db) => {
                    &&& db.wf()
                    &&& db.tables@ == tables@
                    &&& db.stats == stats
                    &&& db.wal_path is None
                    &&& db.active_transaction is None
                },
                None => !(keys_distinct(table_pairs(tables@)) && (forall|j: int|
                    0 <= j < tables@.len() ==> (#[trigger] tables@[j]).table.wf()) && stats.wf()),
            },
    {
        proof {
            lemma_unique_pairs(tables@, table_pairs(tables@));
            lemma_unique_pairs(stats.counts@, count_pairs(stats.counts@));
        }
        if !has_unique_keys(&tables) || !has_unique_keys(&stats.counts) {
            return None;
        }
        let mut j: usize = 0;
        while j < tables.len()
            invariant
                j <= tables@.len(),
                forall|b: int| 0 <= b < j ==> (#[trigger] tables@[b]).table.wf(),
            decreases tables@.len() - j,
        {
            if !check_table(&tables[j].table) {
                return None;
            }
            j = j + 1;
        }
        Some(Database { tables, stats, wal_path: None, active_transaction: None })
    }
}

} // verus!
