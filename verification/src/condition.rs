//! Conditions of a WHERE clause and how one row is checked against them.
use vstd::prelude::*;
use crate::text::{actual_column, extract_actual_column, find_position, position};
use crate::value::{compare_vals, compare_with_op, is_value_order, op_accepts, order_of, Order};

verus! {

broadcast use vstd::string::group_string_axioms;

/// One comparison `col op val`; `val` names a column when `rhs_is_column`,
/// and is a literal otherwise.
#[derive(Debug)]
pub struct Condition {
    pub col: String,
    pub op: String,
    pub val: String,
    pub rhs_is_column: bool,
}

/// The contents of a condition.
pub struct ConditionView {
    pub col: Seq<char>,
    pub op: Seq<char>,
    pub val: Seq<char>,
    pub rhs_is_column: bool,
}

impl View for Condition {
    type V = ConditionView;

    open spec fn view(&self) -> ConditionView {
        ConditionView { col: self.col@, op: self.op@, val: self.val@, rhs_is_column: self.rhs_is_column }
    }
}

impl Condition {
    /// A copy of this condition.
    pub fn duplicate(&self) -> (r: Condition)
        ensures
            r@ == self@,
    {
        Condition {
            col: self.col.clone(),
            op: self.op.clone(),
            val: self.val.clone(),
            rhs_is_column: self.rhs_is_column,
        }
    }
}

/// Copies of a list of conditions.
pub fn duplicate_conditions(conds: &Vec<Condition>) -> (r: Vec<Condition>)
    ensures
        conditions_view(r@) == conditions_view(conds@),
{
    let mut r: Vec<Condition> = Vec::new();
    let mut i: usize = 0;
    while i < conds.len()
        invariant
            i <= conds@.len(),
            r@.len() == i,
            forall|j: int| 0 <= j < i ==> r@[j]@ == conds@[j]@,
        decreases conds@.len() - i,
    {
        r.push(conds[i].duplicate());
        i = i + 1;
    }
    assert(conditions_view(r@) =~= conditions_view(conds@));
    r
}

/// The contents of a list of conditions.
pub open spec fn conditions_view(conds: Seq<Condition>) -> Seq<ConditionView> {
    conds.map_values(|c: Condition| c@)
}

/// What checking `c` on a row gives in a single-table scan: `None` for an
/// error (a column on the right, or an unknown column), else whether the
/// row satisfies it. An undecided comparison does not satisfy it.
pub open spec fn condition_outcome<O: Fn(&str, &str) -> Option<Order>>(
    order: O,
    row: Seq<Seq<char>>,
    columns: Seq<Seq<char>>,
    c: ConditionView,
) -> Option<bool> {
    if c.rhs_is_column {
        None
    } else {
        match position(columns, actual_column(c.col)) {
            None => None,
            Some(i) => Some(
                match order_of(order, row[i], c.val) {
                    Some(o) => op_accepts(c.op, o),
                    None => false,
                },
            ),
        }
    }
}

/// A row passes a list of conditions when each of them is satisfied;
/// a condition that cannot be checked counts as not satisfied.
pub open spec fn row_passes<O: Fn(&str, &str) -> Option<Order>>(
    order: O,
    row: Seq<Seq<char>>,
    columns: Seq<Seq<char>>,
    conds: Seq<ConditionView>,
) -> bool {
    forall|i: int| 0 <= i < conds.len() ==> condition_outcome(order, row, columns, #[trigger] conds[i]) == Some(true)
}

/// Checks one condition on a row of a single table.
pub fn check_condition<O: Fn(&str, &str) -> Option<Order>>(
    row: &Vec<String>,
    columns: &Vec<String>,
    cond: &Condition,
    order: &O,
) -> (r: Result<bool, String>)
    requires
        is_value_order(*order),
        !cond.rhs_is_column ==> (position(columns.deep_view(), actual_column(cond.col@)) matches Some(p) ==> p
            < row@.len()),
    ensures
        match r {
            Ok(b) => condition_outcome(*order, row.deep_view(), columns.deep_view(), cond@) == Some(b),
            Err(e) => condition_outcome(*order, row.deep_view(), columns.deep_view(), cond@) is None && e@ == if cond.rhs_is_column {
                "Column-vs-column comparison not allowed in single-table scan"@
            } else {
                "Column "@ + actual_column(cond.col@) + " not found"@
            },
        },
{
    if cond.rhs_is_column {
        return Err("Column-vs-column comparison not allowed in single-table scan".to_string());
    }
    let actual = extract_actual_column(cond.col.as_str()).to_string();
    match find_position(columns, &actual) {
        None => Err(crate::text::concat_strings(
            &crate::text::concat_strings("Column ", actual.as_str()),
            " not found",
        )),
        Some(idx) => {
            assert(row.deep_view()[idx as int] == row@[idx as int]@);
            match compare_vals(order, row[idx].as_str(), cond.val.as_str()) {
                Some(o) => Ok(compare_with_op(cond.op.as_str(), o)),
                None => Ok(false),
            }
        },
    }
}

/// Whether a row passes all conditions, each failed check counting as
/// not satisfied.
pub fn row_passes_all<O: Fn(&str, &str) -> Option<Order>>(
    row: &Vec<String>,
    columns: &Vec<String>,
    conds: &Vec<Condition>,
    order: &O,
) -> (r: bool)
    requires
        is_value_order(*order),
        row@.len() == columns@.len(),
    ensures
        r == row_passes(*order, row.deep_view(), columns.deep_view(), conditions_view(conds@)),
{
    let ghost cv = conditions_view(conds@);
    let mut i: usize = 0;
    while i < conds.len()
        invariant
            is_value_order(*order),
            row@.len() == columns@.len(),
            cv == conditions_view(conds@),
            i <= conds@.len(),
            forall|j: int| 0 <= j < i ==> condition_outcome(*order, row.deep_view(), columns.deep_view(), #[trigger] cv[j]) == Some(true),
        decreases conds@.len() - i,
    {
        let ok = match check_condition(row, columns, &conds[i], order) {
            Ok(b) => b,
            Err(_) => false,
        };
        if !ok {
            assert(condition_outcome(*order, row.deep_view(), columns.deep_view(), cv[i as int]) != Some(true));
            return false;
        }
        i = i + 1;
    }
    true
}

} // verus!
