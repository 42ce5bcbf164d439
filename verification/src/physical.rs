//! Physical plans.
use vstd::prelude::*;

use crate::ir::Graph;
use crate::ir::{NameId, StringId};

verus! {

/// A constant. A floating-point constant is held by its bits.
#[derive(Clone, Copy, PartialEq, Eq, Structural, Debug)]
pub enum Constant {
    Number(i64),
    Float(u64),
    String(StringId),
    Name(NameId),
    Time(i64),
    Duration(i64),
}

/// A variable or a constant.
#[derive(Clone, Copy, PartialEq, Eq, Structural, Debug)]
pub enum Operand {
    Var(NameId),
    Const(Constant),
}

/// How two operands are compared.
#[derive(Clone, Copy, PartialEq, Eq, Structural, Debug)]
pub enum CompareOp {
    Eq,
    Neq,
    Lt,
    Le,
    Gt,
    Ge,
}

/// What a variable is bound to.
#[derive(Clone, Debug)]
pub enum Expr {
    Value(Operand),
    Call { function: NameId, args: Vec<Operand> },
}

/// What a row is filtered by.
#[derive(Clone, Debug)]
pub enum Condition {
    Compare { op: CompareOp, left: Operand, right: Operand },
    Negation { relation: NameId, args: Vec<Operand> },
    Call { function: NameId, args: Vec<Operand> },
}

/// Where rows come from.
#[derive(Clone, Debug)]
pub enum DataSource {
    /// All rows of a relation.
    Scan { relation: NameId, vars: Vec<NameId> },
    /// The rows that the last iteration added.
    ScanDelta { relation: NameId, vars: Vec<NameId> },
    /// The rows with a given value in a column.
    IndexLookup { relation: NameId, col_idx: usize, key: Operand, vars: Vec<NameId> },
}

/// An aggregate over the rows of a group.
#[derive(Clone, Debug)]
pub struct Aggregate {
    pub var: NameId,
    pub func: NameId,
    pub args: Vec<Operand>,
}

/// An operation of a plan.
#[derive(Debug)]
pub enum Op {
    Nop,
    Sequence(Vec<Op>),
    Iterate { source: DataSource, body: Box<Op> },
    Filter { cond: Condition, body: Box<Op> },
    Insert { relation: NameId, args: Vec<Operand> },
    Let { var: NameId, expr: Expr, body: Box<Op> },
    GroupBy {
        source: NameId,
        vars: Vec<NameId>,
        keys: Vec<NameId>,
        aggregates: Vec<Aggregate>,
        body: Box<Op>,
    },
    HashJoin {
        build_source: DataSource,
        probe_source: DataSource,
        join_keys: Vec<NameId>,
        body: Box<Op>,
    },
}

/// The model of an [`Expr`].
pub enum Term {
    Value(Operand),
    Call { function: NameId, args: Seq<Operand> },
}

/// The model of a [`Condition`].
pub enum Test {
    Compare { op: CompareOp, left: Operand, right: Operand },
    Negation { relation: NameId, args: Seq<Operand> },
    Call { function: NameId, args: Seq<Operand> },
}

/// The model of a [`DataSource`].
pub enum Source {
    Scan { relation: NameId, vars: Seq<NameId> },
    ScanDelta { relation: NameId, vars: Seq<NameId> },
    IndexLookup { relation: NameId, col_idx: usize, key: Operand, vars: Seq<NameId> },
}

/// The model of an [`Aggregate`].
pub struct Fold {
    pub var: NameId,
    pub func: NameId,
    pub args: Seq<Operand>,
}

/// The model of an [`Op`].
pub enum Plan {
    Nop,
    Sequence(Seq<Plan>),
    Iterate { source: Source, body: Box<Plan> },
    Filter { cond: Test, body: Box<Plan> },
    Insert { relation: NameId, args: Seq<Operand> },
    Let { var: NameId, expr: Term, body: Box<Plan> },
    GroupBy {
        source: NameId,
        vars: Seq<NameId>,
        keys: Seq<NameId>,
        aggregates: Seq<Fold>,
        body: Box<Plan>,
    },
    HashJoin { build_source: Source, probe_source: Source, join_keys: Seq<NameId>, body: Box<Plan> },
}

impl View for Expr {
    type V = Term;

    open spec fn view(&self) -> Term {
        match self {
            Expr::Value(o) => Term::Value(*o),
            Expr::Call { function, args } => Term::Call { function: *function, args: args@ },
        }
    }
}

impl View for Condition {
    type V = Test;

    open spec fn view(&self) -> Test {
        match self {
            Condition::Compare { op, left, right } => Test::Compare {
                op: *op,
                left: *left,
                right: *right,
            },
            Condition::Negation { relation, args } => Test::Negation {
                relation: *relation,
                args: args@,
            },
            Condition::Call { function, args } => Test::Call { function: *function, args: args@ },
        }
    }
}

impl View for DataSource {
    type V = Source;

    open spec fn view(&self) -> Source {
        match self {
            DataSource::Scan { relation, vars } => Source::Scan { relation: *relation, vars: vars@ },
            DataSource::ScanDelta { relation, vars } => Source::ScanDelta {
                relation: *relation,
                vars: vars@,
            },
            DataSource::IndexLookup { relation, col_idx, key, vars } => Source::IndexLookup {
                relation: *relation,
                col_idx: *col_idx,
                key: *key,
                vars: vars@,
            },
        }
    }
}

impl View for Aggregate {
    type V = Fold;

    open spec fn view(&self) -> Fold {
        Fold { var: self.var, func: self.func, args: self.args@ }
    }
}

/// The models of aggregates.
pub open spec fn folds(v: Seq<Aggregate>) -> Seq<Fold> {
    Seq::new(v.len(), |i: int| v[i]@)
}

/// The models of operations.
pub open spec fn plans(ops: Seq<Op>) -> Seq<Plan>
    decreases ops,
{
    Seq::new(
        ops.len(),
        |i: int|
            if 0 <= i < ops.len() {
                plan_of(ops[i])
            } else {
                Plan::Nop
            },
    )
}

/// The model of an operation.
pub open spec fn plan_of(op: Op) -> Plan
    decreases op,
{
    match op {
        Op::Nop => Plan::Nop,
        Op::Sequence(ops) => Plan::Sequence(plans(ops@)),
        Op::Iterate { source, body } => Plan::Iterate { source: source@, body: Box::new(plan_of(*body)) },
        Op::Filter { cond, body } => Plan::Filter { cond: cond@, body: Box::new(plan_of(*body)) },
        Op::Insert { relation, args } => Plan::Insert { relation, args: args@ },
        Op::Let { var, expr, body } => Plan::Let { var, expr: expr@, body: Box::new(plan_of(*body)) },
        Op::GroupBy { source, vars, keys, aggregates, body } => Plan::GroupBy {
            source,
            vars: vars@,
            keys: keys@,
            aggregates: folds(aggregates@),
            body: Box::new(plan_of(*body)),
        },
        Op::HashJoin { build_source, probe_source, join_keys, body } => Plan::HashJoin {
            build_source: build_source@,
            probe_source: probe_source@,
            join_keys: join_keys@,
            body: Box::new(plan_of(*body)),
        },
    }
}

impl View for Op {
    type V = Plan;

    open spec fn view(&self) -> Plan {
        plan_of(*self)
    }
}

/// Whether the text of an operand, if it is a constant with one, is in the tables of the graph.
pub open spec fn operand_known(o: Operand, g: Graph) -> bool {
    match o {
        Operand::Const(Constant::String(s)) => s.0 < g.strings.len(),
        Operand::Const(Constant::Name(n)) => g.has_name(n),
        _ => true,
    }
}

/// Whether the texts of operands are in the tables of the graph.
pub open spec fn operands_known(ops: Seq<Operand>, g: Graph) -> bool {
    forall|i: int| 0 <= i < ops.len() ==> operand_known(#[trigger] ops[i], g)
}

/// Whether the texts of a term are in the tables of the graph.
pub open spec fn term_known(t: Term, g: Graph) -> bool {
    match t {
        Term::Value(o) => operand_known(o, g),
        Term::Call { function, args } => g.has_name(function) && operands_known(args, g),
    }
}

/// Whether the texts of a test are in the tables of the graph.
pub open spec fn test_known(t: Test, g: Graph) -> bool {
    match t {
        Test::Compare { left, right, .. } => operand_known(left, g) && operand_known(right, g),
        Test::Negation { relation, args } => g.has_name(relation) && operands_known(args, g),
        Test::Call { function, args } => g.has_name(function) && operands_known(args, g),
    }
}

/// Whether the texts of a source are in the tables of the graph.
pub open spec fn source_known(s: Source, g: Graph) -> bool {
    match s {
        Source::IndexLookup { relation, key, .. } => g.has_name(relation) && operand_known(key, g),
        _ => g.has_name(source_relation(s)),
    }
}

/// Whether the texts of an aggregate are in the tables of the graph.
pub open spec fn fold_known(f: Fold, g: Graph) -> bool {
    g.has_name(f.func) && operands_known(f.args, g)
}

/// The relation of a source.
pub open spec fn source_relation(s: Source) -> NameId {
    match s {
        Source::Scan { relation, .. } => relation,
        Source::ScanDelta { relation, .. } => relation,
        Source::IndexLookup { relation, .. } => relation,
    }
}

/// Whether all texts of a plan, those of its relations, functions and constants, are in the
/// tables of the graph.
pub open spec fn known(p: Plan, g: Graph) -> bool
    decreases p, 0nat,
{
    match p {
        Plan::Nop => true,
        Plan::Sequence(ps) => all_known(ps, ps.len(), g),
        Plan::Iterate { source, body } => source_known(source, g) && known(*body, g),
        Plan::Filter { cond, body } => test_known(cond, g) && known(*body, g),
        Plan::Insert { relation, args } => g.has_name(relation) && operands_known(args, g),
        Plan::Let { expr, body, .. } => term_known(expr, g) && known(*body, g),
        Plan::GroupBy { source, aggregates, body, .. } => {
            &&& g.has_name(source)
            &&& forall|i: int| 0 <= i < aggregates.len() ==> fold_known(#[trigger] aggregates[i], g)
            &&& known(*body, g)
        },
        Plan::HashJoin { build_source, probe_source, body, .. } => {
            &&& source_known(build_source, g)
            &&& source_known(probe_source, g)
            &&& known(*body, g)
        },
    }
}

/// Whether all texts of the first `k` plans are in the tables of the graph.
pub open spec fn all_known(ps: Seq<Plan>, k: nat, g: Graph) -> bool
    decreases ps, k,
{
    if k == 0 || k > ps.len() {
        true
    } else {
        all_known(ps, (k - 1) as nat, g) && known(ps[k - 1], g)
    }
}

/// With a larger graph, what was known stays so.
pub proof fn lemma_known_grows(p: Plan, g: Graph, more: Graph)
    requires
        known(p, g),
        g.extended_by(more),
    ensures
        known(p, more),
    decreases p, 0nat,
{
    match p {
        Plan::Sequence(ps) => lemma_all_known_grows(ps, ps.len(), g, more),
        Plan::Iterate { body, .. } => lemma_known_grows(*body, g, more),
        Plan::Filter { body, .. } => lemma_known_grows(*body, g, more),
        Plan::Let { body, .. } => lemma_known_grows(*body, g, more),
        Plan::GroupBy { aggregates, body, .. } => lemma_known_grows(*body, g, more),
        Plan::HashJoin { body, .. } => lemma_known_grows(*body, g, more),
        _ => {},
    }
}

/// With a larger graph, what was known stays so.
pub proof fn lemma_all_known_grows(ps: Seq<Plan>, k: nat, g: Graph, more: Graph)
    requires
        all_known(ps, k, g),
        g.extended_by(more),
    ensures
        all_known(ps, k, more),
    decreases ps, k,
{
    if k > 0 && k <= ps.len() {
        lemma_all_known_grows(ps, (k - 1) as nat, g, more);
        lemma_known_grows(ps[k - 1], g, more);
    }
}

/// Plans before others are known as they are without those.
pub proof fn lemma_all_known_prefix(ps: Seq<Plan>, p: Plan, k: nat, g: Graph)
    requires
        k <= ps.len(),
    ensures
        all_known(ps.push(p), k, g) == all_known(ps, k, g),
    decreases k,
{
    if k > 0 {
        lemma_all_known_prefix(ps, p, (k - 1) as nat, g);
    }
}

/// Each of the plans is known where all are.
pub proof fn lemma_all_known(ps: Seq<Plan>, k: nat, g: Graph, i: int)
    requires
        k <= ps.len(),
        all_known(ps, k, g),
        0 <= i < k,
    ensures
        known(ps[i], g),
    decreases k,
{
    if i < k - 1 {
        lemma_all_known(ps, (k - 1) as nat, g, i);
    }
}

} // verus!
