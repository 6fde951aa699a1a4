//! The SELECT list, and ORDER BY / LIMIT on the rows of a result.
use vstd::prelude::*;
use crate::sql::{CallArg, CallArgValue, CallArgs, LimitSpec, Literal, OrderClause, Projected, SqlExpr};
use crate::text::{join_strings, joined, parse_usize, to_uppercase, upper_text, usize_of};
use crate::value::str_equal;

verus! {

broadcast use vstd::string::group_string_axioms;

/// An aggregate and the column it reads (`*` for every row).
#[derive(Debug)]
pub enum AggregateFunction {
    Count(String),
    Sum(String),
    Avg(String),
}

/// One item of the SELECT list.
#[derive(Debug)]
pub enum ColumnExpr {
    Column(String),
    Aggregate(AggregateFunction),
}

/// The SELECT list: `*`, or the items before it; and whether an aggregate
/// occurs.
#[derive(Debug)]
pub struct ProjectionInfo {
    pub is_wildcard: bool,
    pub columns: Vec<ColumnExpr>,
    pub has_aggregate: bool,
}

/// The contents of an aggregate.
pub enum AggView {
    Count(Seq<char>),
    Sum(Seq<char>),
    Avg(Seq<char>),
}

/// The contents of an item of the SELECT list.
pub enum ColView {
    Column(Seq<char>),
    Aggregate(AggView),
}

/// The contents of a SELECT list.
pub struct ProjView {
    pub is_wildcard: bool,
    pub columns: Seq<ColView>,
    pub has_aggregate: bool,
}

impl View for AggregateFunction {
    type V = AggView;

    open spec fn view(&self) -> AggView {
        match self {
            AggregateFunction::Count(c) => AggView::Count(c@),
            AggregateFunction::Sum(c) => AggView::Sum(c@),
            AggregateFunction::Avg(c) => AggView::Avg(c@),
        }
    }
}

impl View for ColumnExpr {
    type V = ColView;

    open spec fn view(&self) -> ColView {
        match self {
            ColumnExpr::Column(c) => ColView::Column(c@),
            ColumnExpr::Aggregate(a) => ColView::Aggregate(a@),
        }
    }
}

pub open spec fn col_views(cs: Seq<ColumnExpr>) -> Seq<ColView> {
    cs.map_values(|c: ColumnExpr| c@)
}

impl View for ProjectionInfo {
    type V = ProjView;

    open spec fn view(&self) -> ProjView {
        ProjView {
            is_wildcard: self.is_wildcard,
            columns: col_views(self.columns@),
            has_aggregate: self.has_aggregate,
        }
    }
}

/// The one argument of an aggregate: a column name, or `*`.
pub open spec fn single_arg_of(args: Seq<CallArg>) -> Option<Seq<char>> {
    if args.len() != 1 {
        None
    } else {
        match args[0] {
            CallArg::Unnamed(CallArgValue::Arg(SqlExpr::Identifier(v))) => Some(v@),
            CallArg::Unnamed(CallArgValue::Wildcard) => Some("*"@),
            CallArg::Named(CallArgValue::Arg(SqlExpr::Identifier(v))) => Some(v@),
            _ => None,
        }
    }
}

/// The text of the error reading the one argument of an aggregate gives,
/// where it gives one.
pub open spec fn single_arg_error(args: Seq<CallArg>) -> Seq<char> {
    if args.len() != 1 {
        "聚合函数只接受一个参数"@
    } else if args[0] is ExprNamed {
        "不支持的参数格式"@
    } else {
        "参数格式错误"@
    }
}

/// Reads the one argument of an aggregate.
pub fn extract_single_arg(args: &Vec<CallArg>) -> (r: Result<String, String>)
    ensures
        match r {
            Ok(s) => single_arg_of(args@) == Some(s@),
            Err(e) => single_arg_of(args@) is None && e@ == single_arg_error(args@),
        },
{
    if args.len() != 1 {
        return Err("聚合函数只接受一个参数".to_string());
    }
    match &args[0] {
        CallArg::Unnamed(CallArgValue::Arg(SqlExpr::Identifier(v))) => Ok(v.clone()),
        CallArg::Unnamed(CallArgValue::Wildcard) => {
            proof {
                reveal_strlit("*");
            }
            Ok("*".to_string())
        },
        CallArg::Unnamed(_) => Err("参数格式错误".to_string()),
        CallArg::Named(CallArgValue::Arg(SqlExpr::Identifier(v))) => Ok(v.clone()),
        CallArg::Named(_) => Err("参数格式错误".to_string()),
        CallArg::ExprNamed => Err("不支持的参数格式".to_string()),
    }
}

/// The aggregate that a call of a function whose name, in upper case, is
/// `up` stands for with `args`: COUNT (of every row without an argument
/// list, or with an empty one), SUM or AVG of one column.
pub open spec fn aggregate_of_upper(up: Seq<char>, args: CallArgs) -> Option<AggView> {
    if up == "COUNT"@ {
        match args {
            CallArgs::List(l) => if l@.len() == 0 {
                Some(AggView::Count("*"@))
            } else {
                match single_arg_of(l@) {
                    Some(a) => Some(AggView::Count(a)),
                    None => None,
                }
            },
            CallArgs::Other => Some(AggView::Count("*"@)),
        }
    } else if up == "SUM"@ || up == "AVG"@ {
        match args {
            CallArgs::List(l) => match single_arg_of(l@) {
                Some(a) => Some(if up == "SUM"@ { AggView::Sum(a) } else { AggView::Avg(a) }),
                None => None,
            },
            CallArgs::Other => None,
        }
    } else {
        None
    }
}

/// The text of the error reading a call of a function whose name, in upper
/// case, is `up` gives, where it gives one.
pub open spec fn aggregate_error_upper(up: Seq<char>, args: CallArgs) -> Seq<char> {
    if up == "COUNT"@ || up == "SUM"@ || up == "AVG"@ {
        match args {
            CallArgs::List(l) => single_arg_error(l@),
            CallArgs::Other => if up == "SUM"@ {
                "SUM 需要参数"@
            } else {
                "AVG 需要参数"@
            },
        }
    } else {
        "不支持的函数: "@ + up
    }
}

/// The aggregate that a call of `name` with `args` stands for, the name
/// taken in upper case.
pub open spec fn aggregate_of(name: Seq<char>, args: CallArgs) -> Option<AggView> {
    aggregate_of_upper(upper_text(name), args)
}

/// The aggregate COUNT, SUM or AVG of the column `a`, by the upper-case
/// name `up`.
pub open spec fn named_aggregate(up: Seq<char>, a: Seq<char>) -> Option<AggView> {
    if up == "COUNT"@ {
        Some(AggView::Count(a))
    } else if up == "SUM"@ {
        Some(AggView::Sum(a))
    } else if up == "AVG"@ {
        Some(AggView::Avg(a))
    } else {
        None
    }
}

/// The aggregate COUNT, SUM or AVG of the column `arg`, by the upper-case
/// name `up`; `None` for another name.
pub fn aggregate_named(up: &str, arg: String) -> (r: Option<AggregateFunction>)
    ensures
        match r {
            Some(f) => named_aggregate(up@, arg@) == Some(f@),
            None => named_aggregate(up@, arg@) is None,
        },
{
    proof {
        reveal_strlit("COUNT");
        reveal_strlit("SUM");
        reveal_strlit("AVG");
    }
    if str_equal(up, "COUNT") {
        Some(AggregateFunction::Count(arg))
    } else if str_equal(up, "SUM") {
        Some(AggregateFunction::Sum(arg))
    } else if str_equal(up, "AVG") {
        Some(AggregateFunction::Avg(arg))
    } else {
        None
    }
}

/// What one item of the SELECT list stands for (not for `*`).
pub open spec fn item_column(item: Projected) -> Option<ColView> {
    match item {
        Projected::UnnamedExpr(SqlExpr::Identifier(v)) => Some(ColView::Column(v@)),
        Projected::UnnamedExpr(SqlExpr::CompoundIdentifier(parts)) => Some(
            ColView::Column(joined(parts.deep_view(), "."@)),
        ),
        Projected::UnnamedExpr(SqlExpr::Function(name, args)) => match aggregate_of(name@, args) {
            Some(a) => Some(ColView::Aggregate(a)),
            None => None,
        },
        _ => None,
    }
}

/// The SELECT list that `items` describe, read up to the first `*`; an item
/// that is no column, no `*` and no known aggregate makes it `None`.
pub open spec fn projection_of(items: Seq<Projected>) -> Option<ProjView>
    decreases items.len(),
{
    if items.len() == 0 {
        Some(ProjView { is_wildcard: false, columns: Seq::empty(), has_aggregate: false })
    } else if items[0] is Wildcard {
        Some(ProjView { is_wildcard: true, columns: Seq::empty(), has_aggregate: false })
    } else {
        match (item_column(items[0]), projection_of(items.drop_first())) {
            (Some(c), Some(p)) => Some(
                ProjView {
                    is_wildcard: p.is_wildcard,
                    columns: seq![c] + p.columns,
                    has_aggregate: (c is Aggregate) || p.has_aggregate,
                },
            ),
            _ => None,
        }
    }
}

/// The text of the error reading one item of the SELECT list gives, where
/// it gives one.
pub open spec fn item_error(item: Projected) -> Seq<char> {
    match item {
        Projected::UnnamedExpr(SqlExpr::Function(name, args)) => aggregate_error_upper(upper_text(name@), args),
        Projected::UnnamedExpr(_) => "SELECT 中只能出现列名、* 或聚合函数"@,
        _ => "不支持的 SELECT 项"@,
    }
}

/// The text of the error reading the SELECT list gives, where it gives one:
/// that of its first item that cannot be read.
pub open spec fn projection_error(items: Seq<Projected>) -> Seq<char>
    decreases items.len(),
{
    if items.len() == 0 || items[0] is Wildcard {
        Seq::empty()
    } else if item_column(items[0]) is None {
        item_error(items[0])
    } else {
        projection_error(items.drop_first())
    }
}

/// The items read so far put in front of what the rest of the list gives.
pub open spec fn prefixed(cols: Seq<ColView>, agg: bool, rest: Option<ProjView>) -> Option<ProjView> {
    match rest {
        Some(p) => Some(
            ProjView {
                is_wildcard: p.is_wildcard,
                columns: cols + p.columns,
                has_aggregate: agg || p.has_aggregate,
            },
        ),
        None => None,
    }
}

/// Reads one call of an aggregate function.
fn read_aggregate(name: &String, args: &CallArgs) -> (r: Result<AggregateFunction, String>)
    ensures
        match r {
            Ok(a) => aggregate_of(name@, *args) == Some(a@),
            Err(e) => aggregate_of(name@, *args) is None && e@ == aggregate_error_upper(upper_text(name@), *args),
        },
{
    let up = to_uppercase(name.as_str());
    read_upper_aggregate(&up, args)
}

/// Reads one call of an aggregate function whose name, in upper case, is
/// `up`.
pub fn read_upper_aggregate(up: &String, args: &CallArgs) -> (r: Result<AggregateFunction, String>)
    ensures
        match r {
            Ok(a) => aggregate_of_upper(up@, *args) == Some(a@),
            Err(e) => aggregate_of_upper(up@, *args) is None && e@ == aggregate_error_upper(up@, *args),
        },
{
    proof {
        reveal_strlit("COUNT");
        reveal_strlit("SUM");
        reveal_strlit("AVG");
        reveal_strlit("*");
    }
    if str_equal(up.as_str(), "COUNT") {
        let arg = match args {
            CallArgs::List(l) => {
                if l.len() == 0 {
                    "*".to_string()
                } else {
                    extract_single_arg(l)?
                }
            },
            CallArgs::Other => "*".to_string(),
        };
        Ok(AggregateFunction::Count(arg))
    } else if str_equal(up.as_str(), "SUM") {
        match args {
            CallArgs::List(l) => Ok(AggregateFunction::Sum(extract_single_arg(l)?)),
            CallArgs::Other => Err("SUM 需要参数".to_string()),
        }
    } else if str_equal(up.as_str(), "AVG") {
        match args {
            CallArgs::List(l) => Ok(AggregateFunction::Avg(extract_single_arg(l)?)),
            CallArgs::Other => Err("AVG 需要参数".to_string()),
        }
    } else {
        Err(crate::text::concat_strings("不支持的函数: ", up.as_str()))
    }
}

/// Reads the SELECT list.
pub fn parse_projection(items: &Vec<Projected>) -> (r: Result<ProjectionInfo, String>)
    ensures
        match r {
            Ok(p) => projection_of(items@) == Some(p@),
            Err(e) => projection_of(items@) is None && e@ == projection_error(items@),
        },
{
    let mut cols: Vec<ColumnExpr> = Vec::new();
    let mut has_agg = false;
    let mut i: usize = 0;
    proof {
        assert(items@.skip(0) =~= items@);
        assert(col_views(cols@) =~= Seq::<ColView>::empty());
        assert(prefixed(Seq::empty(), false, projection_of(items@)) =~= projection_of(items@)) by {
            match projection_of(items@) {
                Some(p) => {
                    assert(Seq::<ColView>::empty() + p.columns =~= p.columns);
                },
                None => {},
            }
        }
    }
    while i < items.len()
        invariant
            i <= items@.len(),
            projection_of(items@) == prefixed(col_views(cols@), has_agg, projection_of(items@.skip(i as int))),
            projection_error(items@) == projection_error(items@.skip(i as int)),
        decreases items@.len() - i,
    {
        let ghost rest = items@.skip(i as int);
        proof {
            assert(rest[0] == items@[i as int]);
            assert(rest.drop_first() =~= items@.skip(i + 1));
        }
        let c = match &items[i] {
            Projected::Wildcard => {
                let p = ProjectionInfo { is_wildcard: true, columns: cols, has_aggregate: has_agg };
                proof {
                    assert(col_views(cols@) + Seq::<ColView>::empty() =~= col_views(cols@));
                }
                return Ok(p);
            },
            Projected::UnnamedExpr(SqlExpr::Identifier(v)) => ColumnExpr::Column(v.clone()),
            Projected::UnnamedExpr(SqlExpr::CompoundIdentifier(parts)) => ColumnExpr::Column(join_strings(parts, ".")),
            Projected::UnnamedExpr(SqlExpr::Function(name, args)) => {
                let a = read_aggregate(name, args)?;
                has_agg = true;
                ColumnExpr::Aggregate(a)
            },
            Projected::UnnamedExpr(_) => {
                return Err("SELECT 中只能出现列名、* 或聚合函数".to_string());
            },
            Projected::Other => {
                return Err("不支持的 SELECT 项".to_string());
            },
        };
        let ghost before = col_views(cols@);
        cols.push(c);
        proof {
            assert(col_views(cols@) =~= before.push(c@));
            match projection_of(items@.skip(i + 1)) {
                Some(p) => {
                    assert(before + (seq![c@] + p.columns) =~= col_views(cols@) + p.columns);
                },
                None => {},
            }
        }
        i = i + 1;
    }
    proof {
        assert(items@.skip(i as int) =~= Seq::<Projected>::empty());
        assert(col_views(cols@) + Seq::<ColView>::empty() =~= col_views(cols@));
    }
    Ok(ProjectionInfo { is_wildcard: false, columns: cols, has_aggregate: has_agg })
}

} // verus!
