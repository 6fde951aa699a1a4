//! How two stored values compare.
//!
//! Values are strings. Which of two values is smaller is decided by a value
//! order supplied by the caller (the usual one reads both as numbers where it
//! can and compares the text otherwise); everything built on top of it is
//! verified against the order's observable outcomes.
use vstd::prelude::*;

verus! {

/// The outcome of comparing two values.
#[derive(Clone, Copy, Debug, PartialEq, Eq, Structural)]
pub enum Order {
    Less,
    Equal,
    Greater,
}

impl Order {
    pub open spec fn spec_reverse(self) -> Order {
        match self {
            Order::Less => Order::Greater,
            Order::Equal => Order::Equal,
            Order::Greater => Order::Less,
        }
    }

    /// The opposite outcome.
    pub fn reverse(self) -> (r: Order)
        ensures
            r == self.spec_reverse(),
    {
        match self {
            Order::Less => Order::Greater,
            Order::Equal => Order::Equal,
            Order::Greater => Order::Less,
        }
    }
}

/// Whether `order` yields `r` on some pair of strings with the views `a`, `b`.
pub open spec fn order_yields<O: Fn(&str, &str) -> Option<Order>>(
    order: O,
    a: Seq<char>,
    b: Seq<char>,
    r: Option<Order>,
) -> bool {
    exists|x: &str, y: &str| x@ == a && y@ == b && #[trigger] order.ensures((x, y), r)
}

/// A value order can be called on any two strings and its outcome depends on
/// their contents alone.
pub open spec fn is_value_order<O: Fn(&str, &str) -> Option<Order>>(order: O) -> bool {
    &&& forall|x: &str, y: &str| #[trigger] order.requires((x, y))
    &&& forall|x1: &str, y1: &str, x2: &str, y2: &str, r1: Option<Order>, r2: Option<Order>|
        #![trigger order.ensures((x1, y1), r1), order.ensures((x2, y2), r2)]
        x1@ == x2@ && y1@ == y2@ && order.ensures((x1, y1), r1) && order.ensures((x2, y2), r2)
            ==> r1 == r2
}

/// The outcome of `order` on two values.
pub open spec fn order_of<O: Fn(&str, &str) -> Option<Order>>(
    order: O,
    a: Seq<char>,
    b: Seq<char>,
) -> Option<Order> {
    choose|r: Option<Order>| order_yields(order, a, b, r)
}

/// Compares two values with `order`.
pub fn compare_vals<O: Fn(&str, &str) -> Option<Order>>(order: &O, a: &str, b: &str) -> (r:
    Option<Order>)
    requires
        is_value_order(*order),
    ensures
        r == order_of(*order, a@, b@),
{
    let r = order(a, b);
    proof {
        assert(order_yields(*order, a@, b@, r));
        let r2 = choose|r2: Option<Order>| order_yields(*order, a@, b@, r2);
        assert(order_yields(*order, a@, b@, r2));
        let (x, y) = choose|x: &str, y: &str| x@ == a@ && y@ == b@ && #[trigger] order.ensures((x, y), r2);
        assert(order.ensures((x, y), r2));
        assert(order.ensures((a, b), r));
    }
    r
}

/// Comparing two values the other way round gives the opposite outcome.
#[verifier::opaque]
pub open spec fn is_antisymmetric<O: Fn(&str, &str) -> Option<Order>>(order: O) -> bool {
    forall|a: Seq<char>, b: Seq<char>| #[trigger] order_of(order, a, b) == match order_of(order, b, a) {
        Some(o) => Some(o.spec_reverse()),
        None => None,
    }
}

/// The total comparison used for sorting: an undecided outcome counts as equal.
pub open spec fn total_order_of<O: Fn(&str, &str) -> Option<Order>>(
    order: O,
    a: Seq<char>,
    b: Seq<char>,
) -> Order {
    match order_of(order, a, b) {
        Some(o) => o,
        None => Order::Equal,
    }
}

/// Compares two values for sorting: as `compare_vals`, with an undecided
/// outcome taken as `Equal`.
pub fn compare_values<O: Fn(&str, &str) -> Option<Order>>(order: &O, a: &str, b: &str) -> (r:
    Order)
    requires
        is_value_order(*order),
    ensures
        r == total_order_of(*order, a@, b@),
{
    match compare_vals(order, a, b) {
        Some(o) => o,
        None => Order::Equal,
    }
}

/// Whether the comparison operator `op` accepts the outcome `o`.
pub open spec fn op_accepts(op: Seq<char>, o: Order) -> bool {
    if op == "="@ {
        o == Order::Equal
    } else if op == "!="@ {
        o != Order::Equal
    } else if op == "<"@ {
        o == Order::Less
    } else if op == "<="@ {
        o == Order::Less || o == Order::Equal
    } else if op == ">"@ {
        o == Order::Greater
    } else if op == ">="@ {
        o == Order::Greater || o == Order::Equal
    } else {
        false
    }
}

/// Whether the comparison operator `op` accepts the outcome `o`; an unknown
/// operator accepts nothing.
pub fn compare_with_op(op: &str, o: Order) -> (r: bool)
    ensures
        r == op_accepts(op@, o),
{
    proof {
        reveal_strlit("=");
        reveal_strlit("!=");
        reveal_strlit("<");
        reveal_strlit("<=");
        reveal_strlit(">");
        reveal_strlit(">=");
    }
    if str_equal(op, "=") {
        o == Order::Equal
    } else if str_equal(op, "!=") {
        o != Order::Equal
    } else if str_equal(op, "<") {
        o == Order::Less
    } else if str_equal(op, "<=") {
        o == Order::Less || o == Order::Equal
    } else if str_equal(op, ">") {
        o == Order::Greater
    } else if str_equal(op, ">=") {
        o == Order::Greater || o == Order::Equal
    } else {
        false
    }
}

/// Whether two strings have the same characters.
pub fn str_equal(a: &str, b: &str) -> (r: bool)
    ensures
        r == (a@ == b@),
{
    let n = a.unicode_len();
    let m = b.unicode_len();
    if n != m {
        return false;
    }
    let mut i: usize = 0;
    while i < n
        invariant
            n == a@.len(),
            m == b@.len(),
            n == m,
            i <= n,
            forall|j: int| 0 <= j < i ==> a@[j] == b@[j],
        decreases n - i,
    {
        if a.get_char(i) != b.get_char(i) {
            return false;
        }
        i = i + 1;
    }
    assert(a@ =~= b@);
    true
}

/// The two aggregates that read values as numbers.
#[derive(Clone, Copy, Debug, PartialEq, Eq, Structural)]
pub enum Numeric {
    Sum,
    Avg,
}

/// A numeric aggregate can be called on any list of values, and what it
/// writes depends on the kind and the values' contents alone.
pub open spec fn is_numeric_fn<N: Fn(Numeric, &Vec<String>) -> String>(numeric: N) -> bool {
    &&& forall|k: Numeric, v: &Vec<String>| #[trigger] numeric.requires((k, v))
    &&& forall|k1: Numeric, v1: &Vec<String>, k2: Numeric, v2: &Vec<String>, r1: String, r2: String|
        #![trigger numeric.ensures((k1, v1), r1), numeric.ensures((k2, v2), r2)]
        k1 == k2 && v1.deep_view() == v2.deep_view() && numeric.ensures((k1, v1), r1) && numeric.ensures(
            (k2, v2),
            r2,
        ) ==> r1@ == r2@
}

/// Whether `numeric` writes `r` for the kind `k` and some list with the
/// contents `vals`.
pub open spec fn numeric_yields<N: Fn(Numeric, &Vec<String>) -> String>(
    numeric: N,
    k: Numeric,
    vals: Seq<Seq<char>>,
    r: Seq<char>,
) -> bool {
    exists|v: &Vec<String>, s: String| v.deep_view() == vals && s@ == r && #[trigger] numeric.ensures((k, v), s)
}

/// What `numeric` writes for the kind `k` and the values `vals`.
pub open spec fn numeric_of<N: Fn(Numeric, &Vec<String>) -> String>(
    numeric: N,
    k: Numeric,
    vals: Seq<Seq<char>>,
) -> Seq<char> {
    choose|r: Seq<char>| numeric_yields(numeric, k, vals, r)
}

/// Computes a numeric aggregate of `vals` with `numeric`.
pub fn summarize<N: Fn(Numeric, &Vec<String>) -> String>(numeric: &N, k: Numeric, vals: &Vec<String>) -> (r:
    String)
    requires
        is_numeric_fn(*numeric),
    ensures
        r@ == numeric_of(*numeric, k, vals.deep_view()),
{
    let r = numeric(k, vals);
    proof {
        assert(numeric_yields(*numeric, k, vals.deep_view(), r@));
        let r2 = choose|r2: Seq<char>| numeric_yields(*numeric, k, vals.deep_view(), r2);
        assert(numeric_yields(*numeric, k, vals.deep_view(), r2));
        let (v, s) = choose|v: &Vec<String>, s: String| v.deep_view() == vals.deep_view() && s@ == r2
            && #[trigger] numeric.ensures((k, v), s);
        assert(numeric.ensures((k, v), s));
        assert(numeric.ensures((k, vals), r));
    }
    r
}

} // verus!
