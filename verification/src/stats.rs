//! Query statistics: how often each column was looked up by equality without
//! an index, and when that count calls for one.
use vstd::prelude::*;
use crate::assoc::{find_key, keys_distinct, lemma_map_at, lemma_map_push, lemma_map_update, to_map, Keyed};

verus! {

broadcast use vstd::string::group_string_axioms;

/// How many lookups one key has seen.
#[derive(Debug)]
pub struct LookupCount {
    pub key: String,
    pub count: u32,
}

impl Keyed for LookupCount {
    open spec fn key_view(&self) -> Seq<char> {
        self.key@
    }

    fn key(&self) -> (r: &String) {
        &self.key
    }
}

/// Lookup counts per `table.column`, and the count at which an index is
/// suggested.
#[derive(Debug)]
pub struct Stats {
    pub counts: Vec<LookupCount>,
    pub threshold: u32,
}

pub open spec fn count_pairs(cs: Seq<LookupCount>) -> Seq<(Seq<char>, u32)> {
    cs.map_values(|c: LookupCount| (c.key@, c.count))
}

/// The counts of a `Stats`, by key.
pub struct StatsView {
    pub counts: Map<Seq<char>, u32>,
    pub threshold: u32,
}

impl View for Stats {
    type V = StatsView;

    open spec fn view(&self) -> StatsView {
        StatsView { counts: to_map(count_pairs(self.counts@)), threshold: self.threshold }
    }
}

/// The key under which lookups of `column` in `table` are counted.
pub open spec fn lookup_key(table: Seq<char>, column: Seq<char>) -> Seq<char> {
    table + "."@ + column
}

/// The count of `k` so far (zero when never seen).
pub open spec fn count_of(counts: Map<Seq<char>, u32>, k: Seq<char>) -> u32 {
    if counts.contains_key(k) { counts[k] } else { 0 }
}

/// One more lookup, in the wrapping arithmetic of `u32`.
pub open spec fn bumped(c: u32) -> u32 {
    if c == u32::MAX { 0 } else { (c + 1) as u32 }
}

impl Stats {
    /// No key is counted twice.
    pub open spec fn wf(&self) -> bool {
        keys_distinct(count_pairs(self.counts@))
    }

    /// No counts yet.
    pub fn new(threshold: u32) -> (s: Stats)
        ensures
            s.wf(),
            s@.counts == Map::<Seq<char>, u32>::empty(),
            s@.threshold == threshold,
    {
        let s = Stats { counts: Vec::new(), threshold };
        assert(s@.counts =~= Map::<Seq<char>, u32>::empty());
        s
    }

    /// Counts one equality lookup of `column_name` in `table_name` that
    /// found no index, and returns the pair when the count has reached the
    /// threshold. A lookup that used an index is not counted.
    pub fn record_and_check(&mut self, table_name: &str, column_name: &str, has_index: bool) -> (r:
        Option<(String, String)>)
        requires
            old(self).wf(),
        ensures
            final(self).wf(),
            final(self)@.threshold == old(self)@.threshold,
            has_index ==> r is None && final(self)@ == old(self)@,
            !has_index ==> {
                let k = lookup_key(table_name@, column_name@);
                let c = bumped(count_of(old(self)@.counts, k));
                &&& final(self)@.counts == old(self)@.counts.insert(k, c)
                &&& (r is Some <==> c >= old(self)@.threshold)
                &&& (r matches Some((t, col)) ==> t@ == table_name@ && col@ == column_name@)
            },
    {
        if has_index {
            return None;
        }
        let mut key = table_name.to_string();
        key.append(".");
        key.append(column_name);
        proof {
            reveal_strlit(".");
        }
        let ghost k = lookup_key(table_name@, column_name@);
        assert(key@ == k);
        let ghost cp = count_pairs(self.counts@);
        let c = match find_key(&self.counts, &key) {
            Some(i) => {
                proof {
                    lemma_map_at(cp, i as int);
                }
                let c = self.counts[i].count.wrapping_add(1);
                self.counts[i].count = c;
                proof {
                    assert(count_pairs(self.counts@) =~= cp.update(i as int, (cp[i as int].0, c)));
                    lemma_map_update(cp, i as int, c);
                }
                c
            },
            None => {
                proof {
                    assert forall|q: int| 0 <= q < cp.len() implies #[trigger] cp[q].0 != k by {
                        assert(old(self).counts@[q].key_view() != k);
                    }
                    assert(!to_map(cp).contains_key(k));
                }
                let ghost entry = LookupCount { key, count: 1 };
                self.counts.push(LookupCount { key, count: 1 });
                proof {
                    assert(count_pairs(self.counts@) =~= cp.push((k, 1u32)));
                    lemma_map_push(cp, k, 1u32);
                }
                1
            },
        };
        if c >= self.threshold {
            Some((table_name.to_string(), column_name.to_string()))
        } else {
            None
        }
    }
}

} // verus!
