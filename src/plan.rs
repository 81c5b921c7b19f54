use vstd::prelude::*;

use crate::error::{Feature, OperatorKind, StreamError};

verus! {

/// A scalar expression evaluated against one row of integer columns.
/// Truth values are encoded as `1` (true) and `0` (false).
#[derive(Debug)]
pub enum Expr {
    Column(u32),
    Constant(i64),
    GreaterThan(Box<Expr>, Box<Expr>),
}

/// The value of `e` on `row`; `None` where it reads a column that the row lacks.
pub open spec fn eval_spec(e: Expr, row: Seq<i64>) -> Option<i64>
    decreases e,
{
    match e {
        Expr::Column(c) => if (c as int) < row.len() {
            Some(row[c as int])
        } else {
            None
        },
        Expr::Constant(v) => Some(v),
        Expr::GreaterThan(l, r) => match (eval_spec(*l, row), eval_spec(*r, row)) {
            (Some(a), Some(b)) => Some(if a > b {
                1i64
            } else {
                0i64
            }),
            _ => None,
        },
    }
}

impl Expr {
    /// Evaluates the expression against `row`.
    pub fn eval(&self, row: &Vec<i64>) -> (r: Option<i64>)
        ensures
            r == eval_spec(*self, row@),
        decreases self,
    {
        match self {
            Expr::Column(c) => {
                if (*c as usize) < row.len() {
                    Some(row[*c as usize])
                } else {
                    None
                }
            },
            Expr::Constant(v) => Some(*v),
            Expr::GreaterThan(l, r) => {
                let a = l.eval(row);
                let b = r.eval(row);
                match (a, b) {
                    (Some(x), Some(y)) => Some(if x > y {
                        1i64
                    } else {
                        0i64
                    }),
                    _ => None,
                }
            },
        }
    }
}

/// Whether a filter condition lets `row` through: it evaluates to a non-zero value.
pub open spec fn passes_spec(condition: Expr, row: Seq<i64>) -> bool {
    match eval_spec(condition, row) {
        Some(v) => v != 0,
        None => false,
    }
}

/// Filter: whether `row` passes `condition`; a row it cannot evaluate on does not pass.
pub fn filter_passes(condition: &Expr, row: &Vec<i64>) -> (r: bool)
    ensures
        r == passes_spec(*condition, row@),
{
    match condition.eval(row) {
        Some(v) => v != 0,
        None => false,
    }
}

/// Projection: the row of the values of `exprs` on `row`, or `None` where one of them cannot
/// be evaluated.
pub fn project_row(exprs: &Vec<Expr>, row: &Vec<i64>) -> (r: Option<Vec<i64>>)
    ensures
        match r {
            Some(out) => out@.len() == exprs@.len() && forall|i: int|
                0 <= i < exprs@.len() ==> eval_spec(#[trigger] exprs@[i], row@) == Some(out@[i]),
            None => exists|i: int|
                0 <= i < exprs@.len() && eval_spec(#[trigger] exprs@[i], row@) is None,
        },
{
    let mut out: Vec<i64> = Vec::new();
    let mut i: usize = 0;
    while i < exprs.len()
        invariant
            i <= exprs@.len(),
            out@.len() == i,
            forall|j: int| 0 <= j < i ==> eval_spec(#[trigger] exprs@[j], row@) == Some(out@[j]),
        decreases exprs.len() - i,
    {
        match exprs[i].eval(row) {
            Some(v) => out.push(v),
            None => return None,
        }
        i = i + 1;
    }
    Some(out)
}

/// The values of `exprs` on `row`, or `None` where one of them cannot be evaluated.
pub open spec fn project_spec(exprs: Seq<Expr>, row: Seq<i64>) -> Option<Seq<i64>> {
    if forall|i: int| 0 <= i < exprs.len() ==> (#[trigger] eval_spec(exprs[i], row)) is Some {
        Some(Seq::new(exprs.len(), |i: int| eval_spec(exprs[i], row)->Some_0))
    } else {
        None
    }
}

/// Column types of aggregate arguments and results.
#[derive(Clone, Copy, Debug, PartialEq, Eq, Structural)]
pub enum DataType {
    Int32,
    Int64,
    Boolean,
    Varchar,
}

/// Aggregate functions.
#[derive(Clone, Copy, Debug, PartialEq, Eq, Structural)]
pub enum AggKind {
    Count,
    Sum,
    Min,
    Max,
}

/// One declared argument of an aggregate call: its type and input column.
#[derive(Clone, Copy, Debug, PartialEq, Eq, Structural)]
pub struct AggArgDesc {
    pub data_type: DataType,
    pub column: u32,
}

/// An aggregate call as a fragment declares it.
#[derive(Debug)]
pub struct AggCallDesc {
    pub kind: AggKind,
    pub args: Vec<AggArgDesc>,
    pub return_type: DataType,
}

/// The arguments of a built aggregate call: none, or one typed column.
#[derive(Clone, Copy, Debug, PartialEq, Eq, Structural)]
pub enum AggArgs {
    NoArgs,
    Unary(DataType, usize),
}

/// A built aggregate call.
#[derive(Clone, Copy, Debug, PartialEq, Eq, Structural)]
pub struct AggCall {
    pub kind: AggKind,
    pub args: AggArgs,
    pub return_type: DataType,
}

/// The aggregate call that `desc` builds to, or `None` where it has two or more arguments.
pub open spec fn agg_call_of(kind: AggKind, args: Seq<AggArgDesc>, return_type: DataType) -> Option<
    AggCall,
> {
    if args.len() == 0 {
        Some(AggCall { kind, args: AggArgs::NoArgs, return_type })
    } else if args.len() == 1 {
        Some(
            AggCall {
                kind,
                args: AggArgs::Unary(args[0].data_type, args[0].column as usize),
                return_type,
            },
        )
    } else {
        None
    }
}

/// Builds one aggregate call; more than one argument is not supported.
pub fn build_agg_call(fragment_id: u32, desc: &AggCallDesc) -> (r: Result<AggCall, StreamError>)
    ensures
        match agg_call_of(desc.kind, desc.args@, desc.return_type) {
            Some(c) => r == Ok::<AggCall, StreamError>(c),
            None => r == Err::<AggCall, StreamError>(
                StreamError::UnsupportedFeature {
                    fragment_id,
                    feature: Feature::MultipleAggregationArgs,
                },
            ),
        },
{
    let n = desc.args.len();
    if n == 0 {
        Ok(AggCall { kind: desc.kind, args: AggArgs::NoArgs, return_type: desc.return_type })
    } else if n == 1 {
        let a = desc.args[0];
        Ok(
            AggCall {
                kind: desc.kind,
                args: AggArgs::Unary(a.data_type, a.column as usize),
                return_type: desc.return_type,
            },
        )
    } else {
        Err(
            StreamError::UnsupportedFeature {
                fragment_id,
                feature: Feature::MultipleAggregationArgs,
            },
        )
    }
}

/// Whether every aggregate call in `calls` has at most one argument.
pub open spec fn agg_calls_supported(calls: Seq<AggCallDesc>) -> bool {
    forall|i: int| 0 <= i < calls.len() ==> (#[trigger] calls[i]).args@.len() <= 1
}

/// Whether `built` is the list of aggregate calls that `calls` declares.
pub open spec fn agg_calls_built(calls: Seq<AggCallDesc>, built: Seq<AggCall>) -> bool {
    &&& built.len() == calls.len()
    &&& forall|i: int|
        0 <= i < calls.len() ==> agg_call_of(
            (#[trigger] calls[i]).kind,
            calls[i].args@,
            calls[i].return_type,
        ) == Some(built[i])
}

/// Builds every aggregate call of a node, in order.
pub fn build_agg_calls(fragment_id: u32, calls: &Vec<AggCallDesc>) -> (r: Result<
    Vec<AggCall>,
    StreamError,
>)
    ensures
        match r {
            Ok(v) => agg_calls_supported(calls@) && agg_calls_built(calls@, v@),
            Err(e) => !agg_calls_supported(calls@) && e == StreamError::UnsupportedFeature {
                fragment_id,
                feature: Feature::MultipleAggregationArgs,
            },
        },
{
    let mut out: Vec<AggCall> = Vec::new();
    let mut i: usize = 0;
    while i < calls.len()
        invariant
            i <= calls@.len(),
            agg_calls_supported(calls@.take(i as int)),
            agg_calls_built(calls@.take(i as int), out@),
        decreases calls.len() - i,
    {
        match build_agg_call(fragment_id, &calls[i]) {
            Ok(c) => {
                out.push(c);
                i = i + 1;
                assert(calls@.take(i as int).drop_last() =~= calls@.take(i - 1));
            },
            Err(e) => {
                assert(calls@[i as int].args@.len() > 1);
                return Err(e);
            },
        }
    }
    assert(calls@.take(i as int) =~= calls@);
    Ok(out)
}

/// One operator node of a fragment's chain, as declared.
#[derive(Debug)]
pub enum NodeDesc {
    Projection { exprs: Vec<Expr> },
    Filter { condition: Expr },
    LocalSimpleAgg { calls: Vec<AggCallDesc> },
    GlobalSimpleAgg,
    LocalHashAgg { group_keys: Vec<u32>, calls: Vec<AggCallDesc> },
    GlobalHashAgg,
    MaterializedView { pk_columns: Vec<u32> },
}

/// A built operator. Each operator consumes the output of the one before it in a chain.
#[derive(Debug)]
pub enum Operator {
    Projection { exprs: Vec<Expr> },
    Filter { condition: Expr },
    SimpleAgg { calls: Vec<AggCall> },
    HashAgg { group_keys: Vec<usize>, calls: Vec<AggCall> },
    MaterializedView { pk_columns: Vec<usize> },
}

/// Column indices widened to `usize`, in order.
pub open spec fn columns_built(cols: Seq<u32>, built: Seq<usize>) -> bool {
    &&& built.len() == cols.len()
    &&& forall|i: int| 0 <= i < cols.len() ==> built[i] == cols[i] as usize
}

/// The error that building `node` raises, if any.
pub open spec fn node_error(fragment_id: u32, node: NodeDesc) -> Option<StreamError> {
    match node {
        NodeDesc::GlobalSimpleAgg => Some(
            StreamError::UnsupportedOperator { fragment_id, kind: OperatorKind::GlobalSimpleAgg },
        ),
        NodeDesc::GlobalHashAgg => Some(
            StreamError::UnsupportedOperator { fragment_id, kind: OperatorKind::GlobalHashAgg },
        ),
        NodeDesc::LocalSimpleAgg { calls } => if agg_calls_supported(calls@) {
            None
        } else {
            Some(
                StreamError::UnsupportedFeature {
                    fragment_id,
                    feature: Feature::MultipleAggregationArgs,
                },
            )
        },
        NodeDesc::LocalHashAgg { group_keys, calls } => if agg_calls_supported(calls@) {
            None
        } else {
            Some(
                StreamError::UnsupportedFeature {
                    fragment_id,
                    feature: Feature::MultipleAggregationArgs,
                },
            )
        },
        _ => None,
    }
}

/// Whether `op` is the operator that `node` builds to.
pub open spec fn operator_built(node: NodeDesc, op: Operator) -> bool {
    match (node, op) {
        (NodeDesc::Projection { exprs: d }, Operator::Projection { exprs: o }) => o@ == d@,
        (NodeDesc::Filter { condition: d }, Operator::Filter { condition: o }) => o == d,
        (NodeDesc::LocalSimpleAgg { calls: d }, Operator::SimpleAgg { calls: o }) => agg_calls_built(
            d@,
            o@,
        ),
        (
            NodeDesc::LocalHashAgg { group_keys: dk, calls: d },
            Operator::HashAgg { group_keys: ok, calls: o },
        ) => columns_built(dk@, ok@) && agg_calls_built(d@, o@),
        (
            NodeDesc::MaterializedView { pk_columns: d },
            Operator::MaterializedView { pk_columns: o },
        ) => columns_built(d@, o@),
        _ => false,
    }
}

/// Widens a list of column indices.
fn widen_columns(cols: &Vec<u32>) -> (r: Vec<usize>)
    ensures
        columns_built(cols@, r@),
{
    let mut out: Vec<usize> = Vec::new();
    let mut i: usize = 0;
    while i < cols.len()
        invariant
            i <= cols@.len(),
            columns_built(cols@.take(i as int), out@),
        decreases cols.len() - i,
    {
        out.push(cols[i] as usize);
        i = i + 1;
    }
    assert(cols@.take(i as int) =~= cols@);
    out
}

/// Why a row could not be run through an operator chain.
#[derive(Clone, Copy, Debug, PartialEq, Eq, Structural)]
pub enum ChainFault {
    /// A projection or filter read a column that the row lacks.
    Unevaluable,
    /// The chain holds an aggregation or materialized view, whose state lives in the
    /// aggregation and row-store services rather than in a row-by-row pass.
    Stateful,
}

/// What one operator makes of one row: the row it emits, `None` where a filter drops it,
/// or the fault.
pub open spec fn operator_step(op: Operator, row: Seq<i64>) -> Result<Option<Seq<i64>>, ChainFault> {
    match op {
        Operator::Projection { exprs } => match project_spec(exprs@, row) {
            Some(out) => Ok(Some(out)),
            None => Err(ChainFault::Unevaluable),
        },
        Operator::Filter { condition } => if passes_spec(condition, row) {
            Ok(Some(row))
        } else {
            Ok(None)
        },
        _ => Err(ChainFault::Stateful),
    }
}

/// What a chain (innermost operator first) makes of one row: each operator in turn, until
/// one drops the row or fails.
pub open spec fn chain_step(ops: Seq<Operator>, row: Seq<i64>) -> Result<Option<Seq<i64>>, ChainFault>
    decreases ops.len(),
{
    if ops.len() == 0 {
        Ok(Some(row))
    } else {
        match chain_step(ops.drop_last(), row) {
            Ok(Some(r)) => operator_step(ops.last(), r),
            other => other,
        }
    }
}

/// Runs one row through an operator chain, innermost operator first.
pub fn apply_chain(ops: &Vec<Operator>, row: Vec<i64>) -> (r: Result<Option<Vec<i64>>, ChainFault>)
    ensures
        match r {
            Ok(Some(v)) => chain_step(ops@, row@) == Ok::<Option<Seq<i64>>, ChainFault>(Some(v@)),
            Ok(None) => chain_step(ops@, row@) == Ok::<Option<Seq<i64>>, ChainFault>(None),
            Err(f) => chain_step(ops@, row@) == Err::<Option<Seq<i64>>, ChainFault>(f),
        },
{
    let ghost input = row@;
    let mut cur = row;
    let mut i: usize = 0;
    while i < ops.len()
        invariant
            i <= ops@.len(),
            input == row@,
            chain_step(ops@.take(i as int), input) == Ok::<Option<Seq<i64>>, ChainFault>(
                Some(cur@),
            ),
        decreases ops.len() - i,
    {
        assert(ops@.take(i + 1).drop_last() =~= ops@.take(i as int));
        match &ops[i] {
            Operator::Projection { exprs } => match project_row(exprs, &cur) {
                Some(out) => {
                    assert(out@ =~= Seq::new(exprs@.len(), |j: int| eval_spec(exprs@[j], cur@)->Some_0));
                    cur = out;
                },
                None => {
                    proof {
                        lemma_chain_stops(ops@, input, i as int + 1);
                    }
                    return Err(ChainFault::Unevaluable);
                },
            },
            Operator::Filter { condition } => {
                if !filter_passes(condition, &cur) {
                    proof {
                        lemma_chain_stops(ops@, input, i as int + 1);
                    }
                    return Ok(None);
                }
            },
            _ => {
                proof {
                    lemma_chain_stops(ops@, input, i as int + 1);
                }
                return Err(ChainFault::Stateful);
            },
        }
        i = i + 1;
    }
    assert(ops@.take(i as int) =~= ops@);
    Ok(Some(cur))
}

/// Once a prefix of a chain drops a row or fails, the whole chain does the same.
pub proof fn lemma_chain_stops(ops: Seq<Operator>, row: Seq<i64>, n: int)
    requires
        0 <= n <= ops.len(),
        !(chain_step(ops.take(n), row) is Ok && chain_step(ops.take(n), row)->Ok_0 is Some),
    ensures
        chain_step(ops, row) == chain_step(ops.take(n), row),
    decreases ops.len(),
{
    if n < ops.len() {
        let init = ops.drop_last();
        assert(init.take(n) =~= ops.take(n));
        lemma_chain_stops(init, row, n);
    } else {
        assert(ops.take(n) =~= ops);
    }
}

/// Builds one operator from its declaration.
pub fn build_operator(fragment_id: u32, node: NodeDesc) -> (r: Result<Operator, StreamError>)
    ensures
        match r {
            Ok(op) => node_error(fragment_id, node) is None && operator_built(node, op),
            Err(e) => node_error(fragment_id, node) == Some(e),
        },
{
    match node {
        NodeDesc::Projection { exprs } => Ok(Operator::Projection { exprs }),
        NodeDesc::Filter { condition } => Ok(Operator::Filter { condition }),
        NodeDesc::LocalSimpleAgg { calls } => {
            match build_agg_calls(fragment_id, &calls) {
                Ok(built) => Ok(Operator::SimpleAgg { calls: built }),
                Err(e) => Err(e),
            }
        },
        NodeDesc::GlobalSimpleAgg => Err(
            StreamError::UnsupportedOperator { fragment_id, kind: OperatorKind::GlobalSimpleAgg },
        ),
        NodeDesc::LocalHashAgg { group_keys, calls } => {
            match build_agg_calls(fragment_id, &calls) {
                Ok(built) => {
                    let keys = widen_columns(&group_keys);
                    Ok(Operator::HashAgg { group_keys: keys, calls: built })
                },
                Err(e) => Err(e),
            }
        },
        NodeDesc::GlobalHashAgg => Err(
            StreamError::UnsupportedOperator { fragment_id, kind: OperatorKind::GlobalHashAgg },
        ),
        NodeDesc::MaterializedView { pk_columns } => {
            let keys = widen_columns(&pk_columns);
            Ok(Operator::MaterializedView { pk_columns: keys })
        },
    }
}

/// Checks one aggregate-call list without building it.
fn check_agg_calls(calls: &Vec<AggCallDesc>) -> (r: bool)
    ensures
        r == agg_calls_supported(calls@),
{
    let mut i: usize = 0;
    while i < calls.len()
        invariant
            i <= calls@.len(),
            forall|j: int| 0 <= j < i ==> (#[trigger] calls@[j]).args@.len() <= 1,
        decreases calls.len() - i,
    {
        if calls[i].args.len() > 1 {
            return false;
        }
        i = i + 1;
    }
    true
}

/// The error that building `node` would raise, found without building it.
pub fn check_node(fragment_id: u32, node: &NodeDesc) -> (r: Option<StreamError>)
    ensures
        r == node_error(fragment_id, *node),
{
    match node {
        NodeDesc::GlobalSimpleAgg => Some(
            StreamError::UnsupportedOperator { fragment_id, kind: OperatorKind::GlobalSimpleAgg },
        ),
        NodeDesc::GlobalHashAgg => Some(
            StreamError::UnsupportedOperator { fragment_id, kind: OperatorKind::GlobalHashAgg },
        ),
        NodeDesc::LocalSimpleAgg { calls } | NodeDesc::LocalHashAgg { calls, .. } => {
            if check_agg_calls(calls) {
                None
            } else {
                Some(
                    StreamError::UnsupportedFeature {
                        fragment_id,
                        feature: Feature::MultipleAggregationArgs,
                    },
                )
            }
        },
        _ => None,
    }
}

/// The first error met when a chain is built input-first, that is from its last node
/// (the innermost) towards its first (the root).
pub open spec fn chain_error(fragment_id: u32, nodes: Seq<NodeDesc>) -> Option<StreamError>
    decreases nodes.len(),
{
    if nodes.len() == 0 {
        None
    } else {
        match node_error(fragment_id, nodes.last()) {
            Some(e) => Some(e),
            None => chain_error(fragment_id, nodes.drop_last()),
        }
    }
}

/// Whether `ops` is the chain that `nodes` builds to: `nodes` lists the root first,
/// `ops` lists the innermost operator first.
pub open spec fn chain_built(nodes: Seq<NodeDesc>, ops: Seq<Operator>) -> bool {
    &&& ops.len() == nodes.len()
    &&& forall|i: int|
        0 <= i < ops.len() ==> operator_built(nodes[nodes.len() - 1 - i], #[trigger] ops[i])
}

/// The error that building the chain `nodes` would raise, found without building it.
pub fn check_chain(fragment_id: u32, nodes: &Vec<NodeDesc>) -> (r: Option<StreamError>)
    ensures
        r == chain_error(fragment_id, nodes@),
{
    let mut k: usize = nodes.len();
    assert(nodes@.take(k as int) =~= nodes@);
    while k > 0
        invariant
            k <= nodes@.len(),
            chain_error(fragment_id, nodes@) == chain_error(fragment_id, nodes@.take(k as int)),
        decreases k,
    {
        assert(nodes@.take(k as int).drop_last() =~= nodes@.take(k - 1));
        let e = check_node(fragment_id, &nodes[k - 1]);
        if e.is_some() {
            return e;
        }
        k = k - 1;
    }
    None
}

/// Builds a fragment's operator chain, innermost operator first, so that each operator is
/// built after the input it consumes.
pub fn create_nodes(fragment_id: u32, nodes: Vec<NodeDesc>) -> (r: Result<
    Vec<Operator>,
    StreamError,
>)
    ensures
        match r {
            Ok(ops) => chain_error(fragment_id, nodes@) is None && chain_built(nodes@, ops@),
            Err(e) => chain_error(fragment_id, nodes@) == Some(e),
        },
{
    let ghost all = nodes@;
    let mut rest = nodes;
    let mut ops: Vec<Operator> = Vec::new();
    while rest.len() > 0
        invariant
            all == nodes@,
            rest@ == all.take(rest@.len() as int),
            rest@.len() <= all.len(),
            ops@.len() == all.len() - rest@.len(),
            chain_error(fragment_id, all) == chain_error(fragment_id, rest@),
            forall|i: int|
                0 <= i < ops@.len() ==> operator_built(all[all.len() - 1 - i], #[trigger] ops@[i]),
        decreases rest@.len(),
    {
        let ghost before = rest@;
        let node = rest.pop().unwrap();
        assert(rest@ =~= all.take(rest@.len() as int));
        assert(before.drop_last() =~= rest@);
        match build_operator(fragment_id, node) {
            Ok(op) => ops.push(op),
            Err(e) => {
                assert(chain_error(fragment_id, before) == Some(e));
                return Err(e);
            },
        }
    }
    Ok(ops)
}

} // verus!
