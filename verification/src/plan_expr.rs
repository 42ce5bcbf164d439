//! Planning of terms: what must be computed before an operand is at hand.
use vstd::prelude::*;

use crate::ir::{ids_below, Graph, Inst, InstId, Ir, NameId, Node};
use crate::physical::Term;
use crate::physical::{Constant, Expr, Op, Operand};
use crate::physical::{known, operand_known, operands_known, term_known, Plan};
use crate::text::decimal;
use crate::text::push_decimal;

verus! {

/// Why a rule cannot be planned.
#[derive(Clone, Copy, PartialEq, Eq, Structural, Debug)]
pub enum PlanError {
    NotARule,
    GroupKey,
    UnexpectedTransform,
    ComparisonArity,
    BuiltinArity,
    NegatedTerm,
    NegatedNonAtom,
    UnsupportedPremise(InstId),
    UnsupportedExpression,
    HeadNotAtom,
    InvalidTransform,
    AggregateTerm,
}

/// The error's message; that of an unsupported premise is followed by the premise.
pub open spec fn plan_error_text(e: PlanError) -> Seq<char> {
    match e {
        PlanError::NotARule => "Not a rule"@,
        PlanError::GroupKey => "GroupBy keys must be variables"@,
        PlanError::UnexpectedTransform => "Unexpected transform in sequence"@,
        PlanError::ComparisonArity => "Comparison predicate requires exactly 2 arguments"@,
        PlanError::BuiltinArity => "Built-in predicate requires exactly 2 arguments"@,
        PlanError::NegatedTerm => "Complex expression in negated atom"@,
        PlanError::NegatedNonAtom => "NegAtom wraps non-atom"@,
        PlanError::UnsupportedPremise(_) => "Unsupported premise type"@,
        PlanError::UnsupportedExpression => "Unsupported expression in evaluation"@,
        PlanError::HeadNotAtom => "Head must be an atom"@,
        PlanError::InvalidTransform => "Invalid transform structure"@,
        PlanError::AggregateTerm => "Complex expressions in aggregates not supported yet"@,
    }
}

impl PlanError {
    /// The error's message.
    pub fn message(&self) -> (r: String)
        ensures
            r@ == plan_error_text(*self),
    {
        match self {
            PlanError::NotARule => "Not a rule".to_owned(),
            PlanError::GroupKey => "GroupBy keys must be variables".to_owned(),
            PlanError::UnexpectedTransform => "Unexpected transform in sequence".to_owned(),
            PlanError::ComparisonArity => "Comparison predicate requires exactly 2 arguments".to_owned(),
            PlanError::BuiltinArity => "Built-in predicate requires exactly 2 arguments".to_owned(),
            PlanError::NegatedTerm => "Complex expression in negated atom".to_owned(),
            PlanError::NegatedNonAtom => "NegAtom wraps non-atom".to_owned(),
            PlanError::UnsupportedPremise(_) => "Unsupported premise type".to_owned(),
            PlanError::UnsupportedExpression => "Unsupported expression in evaluation".to_owned(),
            PlanError::HeadNotAtom => "Head must be an atom".to_owned(),
            PlanError::InvalidTransform => "Invalid transform structure".to_owned(),
            PlanError::AggregateTerm =>
                "Complex expressions in aggregates not supported yet".to_owned(),
        }
    }
}

/// The state of planning: the graph and the number of the next temporary.
pub struct PlanState {
    pub g: Graph,
    pub fresh: usize,
}

/// The number after `n`.
pub open spec fn next_number(n: usize) -> usize {
    if n == usize::MAX {
        0
    } else {
        (n + 1) as usize
    }
}

/// The name of the `n`-th temporary, of the kind `prefix`.
pub open spec fn temp_text(prefix: Seq<char>, n: usize) -> Seq<char> {
    "$"@ + prefix + "_"@ + decimal(n as nat)
}

/// The next temporary, and the state after it.
pub open spec fn with_temp(p: PlanState, prefix: Seq<char>) -> (PlanState, NameId) {
    let text = temp_text(prefix, p.fresh);
    (PlanState { g: p.g.with_name(text), fresh: next_number(p.fresh) }, p.g.name_id(text))
}

/// The state once a name is interned.
pub open spec fn with_interned(p: PlanState, text: Seq<char>) -> PlanState {
    PlanState { g: p.g.with_name(text), ..p }
}

/// A fresh temporary.
pub(crate) fn fresh_var(ir: &mut Ir, fresh: &mut usize, prefix: &str) -> (name: NameId)
    requires
        old(ir)@.wf(),
    ensures
        final(ir)@.wf(),
        (PlanState { g: final(ir)@, fresh: *final(fresh) }, name) == with_temp(
            PlanState { g: old(ir)@, fresh: *old(fresh) },
            prefix@,
        ),
        final(ir)@.has_name(name),
        old(ir)@.extended_by(final(ir)@),
        old(ir)@.nodes == final(ir)@.nodes,
{
    let mut text = "$".to_owned().concat(prefix).concat("_");
    push_decimal(&mut text, *fresh as u64);
    *fresh = if *fresh == usize::MAX {
        0
    } else {
        *fresh + 1
    };
    ir.intern_name(text.as_str())
}

/// A variable and what it is bound to.
pub struct Binding {
    pub var: NameId,
    pub expr: Expr,
}

/// The models of bindings.
pub open spec fn bindings(v: Seq<Binding>) -> Seq<(NameId, Term)> {
    Seq::new(v.len(), |i: int| (v[i].var, v[i].expr@))
}

/// `body` within the bindings, the first one outermost.
pub open spec fn wrapped(bs: Seq<(NameId, Term)>, body: Plan) -> Plan
    decreases bs.len(),
{
    if bs.len() == 0 {
        body
    } else {
        wrapped(
            bs.drop_last(),
            Plan::Let { var: bs.last().0, expr: bs.last().1, body: Box::new(body) },
        )
    }
}

/// Whether the functions that bindings call are among the first `n` names.
pub open spec fn bindings_known(bs: Seq<(NameId, Term)>, n: Graph) -> bool {
    forall|i: int| 0 <= i < bs.len() ==> term_known((#[trigger] bs[i]).1, n)
}

/// A plan within bindings names what the two name.
pub proof fn lemma_wrapped_known(bs: Seq<(NameId, Term)>, body: Plan, n: Graph)
    requires
        bindings_known(bs, n),
        known(body, n),
    ensures
        known(wrapped(bs, body), n),
    decreases bs.len(),
{
    if bs.len() > 0 {
        assert(term_known(bs[bs.len() - 1].1, n));
        lemma_wrapped_known(
            bs.drop_last(),
            Plan::Let { var: bs.last().0, expr: bs.last().1, body: Box::new(body) },
            n,
        );
    }
}

/// Puts a plan within bindings.
pub(crate) fn wrap(bs: Vec<Binding>, body: Op) -> (op: Op)
    ensures
        op@ == wrapped(bindings(bs@), body@),
        forall|n: Graph| bindings_known(bindings(bs@), n) && known(body@, n) ==> #[trigger] known(op@, n),
{
    let ghost all = bindings(bs@);
    let ghost start = body@;
    proof {
        assert forall|n: Graph| bindings_known(all, n) && known(start, n) implies #[trigger] known(
            wrapped(all, start),
            n,
        ) by {
            lemma_wrapped_known(all, start, n);
        }
    }
    let mut rest = bs;
    let mut op = body;
    while rest.len() > 0
        invariant
            wrapped(all, start) == wrapped(bindings(rest@), op@),
        decreases rest@.len(),
    {
        let ghost before = rest@;
        if let Some(b) = rest.pop() {
            assert(bindings(rest@) =~= bindings(before).drop_last());
            assert(bindings(before).last() == (b.var, b.expr@));
            op = Op::Let { var: b.var, expr: b.expr, body: Box::new(op) };
        }
    }
    op
}

/// The operand that a term is, if it needs no computation.
pub open spec fn simple_operand(n: Node) -> Option<Operand> {
    match n {
        Node::Var(v) => Some(Operand::Var(v)),
        Node::String(s) => Some(Operand::Const(Constant::String(s))),
        Node::Number(n) => Some(Operand::Const(Constant::Number(n))),
        Node::Name(n) => Some(Operand::Const(Constant::Name(n))),
        Node::Float(b) => Some(Operand::Const(Constant::Float(b))),
        Node::Time(t) => Some(Operand::Const(Constant::Time(t))),
        Node::Duration(d) => Some(Operand::Const(Constant::Duration(d))),
        _ => None,
    }
}

/// The operand that a term is, if it needs no computation.
pub(crate) fn operand_of(inst: &Inst) -> (r: Option<Operand>)
    ensures
        r == simple_operand(inst@),
{
    match inst {
        Inst::Var(v) => Some(Operand::Var(*v)),
        Inst::String(s) => Some(Operand::Const(Constant::String(*s))),
        Inst::Number(n) => Some(Operand::Const(Constant::Number(*n))),
        Inst::Name(n) => Some(Operand::Const(Constant::Name(*n))),
        Inst::Float(b) => Some(Operand::Const(Constant::Float(*b))),
        Inst::Time(t) => Some(Operand::Const(Constant::Time(*t))),
        Inst::Duration(d) => Some(Operand::Const(Constant::Duration(*d))),
        _ => None,
    }
}

/// Items of two lists in turn, as far as both go.
pub open spec fn interleaved(a: Seq<InstId>, b: Seq<InstId>, n: nat) -> Seq<InstId>
    decreases n,
{
    if n == 0 {
        Seq::empty()
    } else {
        interleaved(a, b, (n - 1) as nat).push(a[n - 1]).push(b[n - 1])
    }
}

/// The smaller of two lengths.
pub open spec fn least(a: nat, b: nat) -> nat {
    if a < b {
        a
    } else {
        b
    }
}

pub proof fn lemma_interleaved(a: Seq<InstId>, b: Seq<InstId>, n: nat, limit: nat)
    requires
        n <= a.len(),
        n <= b.len(),
        ids_below(a, limit),
        ids_below(b, limit),
    ensures
        ids_below(interleaved(a, b, n), limit),
    decreases n,
{
    if n > 0 {
        lemma_interleaved(a, b, (n - 1) as nat, limit);
    }
}

/// The graph with an instruction for each of the first `n` names.
pub open spec fn with_names(g: Graph, fields: Seq<NameId>, n: nat) -> Graph
    decreases n,
{
    if n == 0 {
        g
    } else {
        with_names(g, fields, (n - 1) as nat).with_node(Node::Name(fields[n - 1]))
    }
}

/// The outcome of planning terms: the bindings they need and their operands.
pub type Operands = Result<(Seq<(NameId, Term)>, Seq<Operand>), PlanError>;

/// The outcome of planning a term: the bindings it needs and its operand.
pub type Evaluated = Result<(Seq<(NameId, Term)>, Operand), PlanError>;

/// The outcome of calling a function on operands: its result goes to a temporary.
pub open spec fn called(p: PlanState, ops: Operands, function: NameId, prefix: Seq<char>) -> (PlanState, Evaluated) {
    match ops {
        Ok((bs, args)) => {
            let (q, temp) = with_temp(p, prefix);
            (q, Ok((bs.push((temp, Term::Call { function, args })), Operand::Var(temp))))
        },
        Err(e) => (p, Err(e)),
    }
}

/// The outcome of planning the term `id` of `base`.
pub open spec fn evaluated(base: Graph, p: PlanState, id: InstId) -> (PlanState, Evaluated)
    decreases id.0, 1nat, 0nat,
    when base.wf() && base.has(id)
{
    match simple_operand(base.node(id)) {
        Some(o) => (p, Ok((Seq::empty(), o))),
        None => match base.node(id) {
            Node::ApplyFn { function, args } => {
                let (q, ops) = operands(base, p, args, args.len(), id.0 as nat);
                called(q, ops, function, "call"@)
            },
            Node::List(items) => {
                let function = p.g.name_id("fn:list"@);
                let (q, ops) = operands(
                    base,
                    with_interned(p, "fn:list"@),
                    items,
                    items.len(),
                    id.0 as nat,
                );
                called(q, ops, function, "list"@)
            },
            Node::Dict { keys, values } => {
                let n = least(keys.len(), values.len());
                let ids = interleaved(keys, values, n);
                proof {
                    lemma_interleaved(keys, values, n, id.0 as nat);
                }
                let function = p.g.name_id("fn:map"@);
                let (q, ops) = operands(
                    base,
                    with_interned(p, "fn:map"@),
                    ids,
                    ids.len(),
                    id.0 as nat,
                );
                called(q, ops, function, "map"@)
            },
            Node::Struct { fields, values } => {
                let h = with_names(p.g, fields, fields.len());
                let function = h.name_id("fn:struct"@);
                let (q, ops) = field_operands(
                    base,
                    with_interned(PlanState { g: h, ..p }, "fn:struct"@),
                    fields,
                    values,
                    values.len(),
                    id.0 as nat,
                );
                called(q, ops, function, "struct"@)
            },
            _ => (p, Err(PlanError::UnsupportedExpression)),
        },
    }
}

/// The outcome of planning the first `n` of the terms `ids`, from left to right.
pub open spec fn operands(base: Graph, p: PlanState, ids: Seq<InstId>, n: nat, limit: nat) -> (PlanState, Operands)
    decreases limit, 0nat, n,
    when base.wf() && limit <= base.nodes.len() && ids_below(ids, limit) && n <= ids.len()
{
    if n == 0 {
        (p, Ok((Seq::empty(), Seq::empty())))
    } else {
        let (q, so_far) = operands(base, p, ids, (n - 1) as nat, limit);
        match so_far {
            Err(e) => (q, Err(e)),
            Ok((bs, ops)) => {
                let (r, last) = evaluated(base, q, ids[n - 1]);
                match last {
                    Err(e) => (r, Err(e)),
                    Ok((b, o)) => (r, Ok((bs + b, ops.push(o)))),
                }
            },
        }
    }
}

/// The outcome of planning the first `n` fields of a struct: names and values in turn.
pub open spec fn field_operands(
    base: Graph,
    p: PlanState,
    fields: Seq<NameId>,
    values: Seq<InstId>,
    n: nat,
    limit: nat,
) -> (PlanState, Operands)
    decreases limit, 0nat, n,
    when base.wf() && limit <= base.nodes.len() && ids_below(values, limit) && n <= values.len()
{
    if n == 0 {
        (p, Ok((Seq::empty(), Seq::empty())))
    } else {
        let (q, so_far) = field_operands(base, p, fields, values, (n - 1) as nat, limit);
        match so_far {
            Err(e) => (q, Err(e)),
            Ok((bs, ops)) => {
                let (r, last) = evaluated(base, q, values[n - 1]);
                match last {
                    Err(e) => (r, Err(e)),
                    Ok((b, o)) => (
                        r,
                        Ok((bs + b, ops.push(Operand::Const(Constant::Name(fields[n - 1]))).push(o))),
                    ),
                }
            },
        }
    }
}

/// The model of the outcome of planning terms.
pub open spec fn operands_of(r: Result<(Vec<Binding>, Vec<Operand>), PlanError>) -> Operands {
    match r {
        Ok((b, o)) => Ok((bindings(b@), o@)),
        Err(e) => Err(e),
    }
}

/// The model of the outcome of planning a term.
pub open spec fn evaluated_of(r: Result<(Vec<Binding>, Operand), PlanError>) -> Evaluated {
    match r {
        Ok((b, o)) => Ok((bindings(b@), o)),
        Err(e) => Err(e),
    }
}

/// Once planning fails, later terms are not looked at.
proof fn lemma_operands_fail(base: Graph, p: PlanState, ids: Seq<InstId>, k: nat, n: nat, limit: nat)
    requires
        base.wf(),
        limit <= base.nodes.len(),
        ids_below(ids, limit),
        k <= n <= ids.len(),
        operands(base, p, ids, k, limit).1 is Err,
    ensures
        operands(base, p, ids, n, limit) == operands(base, p, ids, k, limit),
    decreases n,
{
    if k < n {
        lemma_operands_fail(base, p, ids, k, (n - 1) as nat, limit);
    }
}

/// Once planning fails, later fields are not looked at.
proof fn lemma_fields_fail(
    base: Graph,
    p: PlanState,
    fields: Seq<NameId>,
    values: Seq<InstId>,
    k: nat,
    n: nat,
    limit: nat,
)
    requires
        base.wf(),
        limit <= base.nodes.len(),
        ids_below(values, limit),
        k <= n <= values.len(),
        field_operands(base, p, fields, values, k, limit).1 is Err,
    ensures
        field_operands(base, p, fields, values, n, limit) == field_operands(
            base,
            p,
            fields,
            values,
            k,
            limit,
        ),
    decreases n,
{
    if k < n {
        lemma_fields_fail(base, p, fields, values, k, (n - 1) as nat, limit);
    }
}

/// Plans terms of an earlier graph.
fn eval_args_from(
    ir: &mut Ir,
    fresh: &mut usize,
    ids: &Vec<InstId>,
    Ghost(limit): Ghost<nat>,
    Ghost(base): Ghost<Graph>,
) -> (r: Result<(Vec<Binding>, Vec<Operand>), PlanError>)
    requires
        base.wf(),
        limit <= base.nodes.len(),
        ids_below(ids@, limit),
        base.extended_by(old(ir)@),
        old(ir)@.wf(),
    ensures
        final(ir)@.wf(),
        old(ir)@.extended_by(final(ir)@),
        r matches Ok((bs, ops)) ==> bindings_known(bindings(bs@), final(ir)@) && operands_known(
            ops@,
            final(ir)@,
        ),
        (PlanState { g: final(ir)@, fresh: *final(fresh) }, operands_of(r)) == operands(
            base,
            PlanState { g: old(ir)@, fresh: *old(fresh) },
            ids@,
            ids@.len(),
            limit,
        ),
    decreases limit, 0nat,
{
    let ghost g = ir@;
    let ghost start = PlanState { g, fresh: *fresh };
    let mut bs: Vec<Binding> = Vec::new();
    let mut ops: Vec<Operand> = Vec::new();
    let mut n: usize = 0;
    assert(bindings(bs@) =~= Seq::<(NameId, Term)>::empty());
    assert(ops@ =~= Seq::<Operand>::empty());
    while n < ids.len()
        invariant
            ir@.wf(),
            g.extended_by(ir@),
            n <= ids@.len(),
            bindings_known(bindings(bs@), ir@),
            operands_known(ops@, ir@),
            (PlanState { g: ir@, fresh: *fresh }, Operands::Ok((bindings(bs@), ops@))) == operands(
                base,
                start,
                ids@,
                n as nat,
                limit,
            ),
        decreases ids@.len() - n,
    {
        let ghost so_far = bindings(bs@);
        match eval_from(ir, fresh, ids[n], Ghost(base)) {
            Ok((b, o)) => {
                let mut more = b;
                let ghost added = bindings(more@);
                bs.append(&mut more);
                assert(bindings(bs@) =~= so_far + added);
                ops.push(o);
            },
            Err(e) => {
                proof {
                    lemma_operands_fail(base, start, ids@, (n + 1) as nat, ids@.len(), limit);
                }
                return Err(e);
            },
        }
        n += 1;
    }
    Ok((bs, ops))
}

/// Binds the result of a call to a temporary.
fn finish_call(
    ir: &mut Ir,
    fresh: &mut usize,
    ops: Result<(Vec<Binding>, Vec<Operand>), PlanError>,
    function: NameId,
    prefix: &str,
) -> (r: Result<(Vec<Binding>, Operand), PlanError>)
    requires
        old(ir)@.wf(),
        old(ir)@.has_name(function),
        ops matches Ok((bs, args)) ==> bindings_known(bindings(bs@), old(ir)@) && operands_known(
            args@,
            old(ir)@,
        ),
    ensures
        final(ir)@.wf(),
        old(ir)@.extended_by(final(ir)@),
        r matches Ok((bs, o)) ==> bindings_known(bindings(bs@), final(ir)@) && operand_known(o, final(ir)@),
        (PlanState { g: final(ir)@, fresh: *final(fresh) }, evaluated_of(r)) == called(
            PlanState { g: old(ir)@, fresh: *old(fresh) },
            operands_of(ops),
            function,
            prefix@,
        ),
{
    match ops {
        Ok((b, args)) => {
            let mut bs = b;
            let temp = fresh_var(ir, fresh, prefix);
            let ghost so_far = bindings(bs@);
            let ghost ids = args@;
            bs.push(Binding { var: temp, expr: Expr::Call { function, args } });
            assert(bindings(bs@) =~= so_far.push((temp, Term::Call { function, args: ids })));
            Ok((bs, Operand::Var(temp)))
        },
        Err(e) => Err(e),
    }
}

/// Plans the fields of a struct of an earlier graph.
fn eval_fields_from(
    ir: &mut Ir,
    fresh: &mut usize,
    fields: &Vec<NameId>,
    values: &Vec<InstId>,
    Ghost(limit): Ghost<nat>,
    Ghost(base): Ghost<Graph>,
) -> (r: Result<(Vec<Binding>, Vec<Operand>), PlanError>)
    requires
        base.wf(),
        limit <= base.nodes.len(),
        ids_below(values@, limit),
        fields@.len() == values@.len(),
        forall|i: int| 0 <= i < fields@.len() ==> base.has_name(#[trigger] fields@[i]),
        base.extended_by(old(ir)@),
        old(ir)@.wf(),
    ensures
        final(ir)@.wf(),
        old(ir)@.extended_by(final(ir)@),
        r matches Ok((bs, ops)) ==> bindings_known(bindings(bs@), final(ir)@) && operands_known(
            ops@,
            final(ir)@,
        ),
        (PlanState { g: final(ir)@, fresh: *final(fresh) }, operands_of(r)) == field_operands(
            base,
            PlanState { g: old(ir)@, fresh: *old(fresh) },
            fields@,
            values@,
            values@.len(),
            limit,
        ),
    decreases limit, 0nat,
{
    let ghost g = ir@;
    let ghost start = PlanState { g, fresh: *fresh };
    let mut bs: Vec<Binding> = Vec::new();
    let mut ops: Vec<Operand> = Vec::new();
    let mut n: usize = 0;
    assert(bindings(bs@) =~= Seq::<(NameId, Term)>::empty());
    assert(ops@ =~= Seq::<Operand>::empty());
    while n < values.len()
        invariant
            ir@.wf(),
            g.extended_by(ir@),
            n <= values@.len(),
            bindings_known(bindings(bs@), ir@),
            operands_known(ops@, ir@),
            (PlanState { g: ir@, fresh: *fresh }, Operands::Ok((bindings(bs@), ops@))) == field_operands(
                base,
                start,
                fields@,
                values@,
                n as nat,
                limit,
            ),
        decreases values@.len() - n,
    {
        let ghost so_far = bindings(bs@);
        match eval_from(ir, fresh, values[n], Ghost(base)) {
            Ok((b, o)) => {
                let mut more = b;
                let ghost added = bindings(more@);
                bs.append(&mut more);
                assert(bindings(bs@) =~= so_far + added);
                ops.push(Operand::Const(Constant::Name(fields[n])));
                ops.push(o);
            },
            Err(e) => {
                proof {
                    lemma_fields_fail(
                        base,
                        start,
                        fields@,
                        values@,
                        (n + 1) as nat,
                        values@.len(),
                        limit,
                    );
                }
                return Err(e);
            },
        }
        n += 1;
    }
    Ok((bs, ops))
}

/// Plans a term of an earlier graph.
fn eval_from(ir: &mut Ir, fresh: &mut usize, id: InstId, Ghost(base): Ghost<Graph>) -> (r: Result<(Vec<Binding>, Operand), PlanError>)
    requires
        base.wf(),
        base.has(id),
        base.extended_by(old(ir)@),
        old(ir)@.wf(),
    ensures
        final(ir)@.wf(),
        old(ir)@.extended_by(final(ir)@),
        r matches Ok((bs, o)) ==> bindings_known(bindings(bs@), final(ir)@) && operand_known(o, final(ir)@),
        (PlanState { g: final(ir)@, fresh: *final(fresh) }, evaluated_of(r)) == evaluated(
            base,
            PlanState { g: old(ir)@, fresh: *old(fresh) },
            id,
        ),
    decreases id.0, 1nat,
{
    let ghost g = ir@;
    let limit: Ghost<nat> = Ghost(id.0 as nat);
    proof {
        assert(base.nodes[id.0 as int] == g.nodes[id.0 as int]);
        assert(base.nodes[id.0 as int].fits(id.0 as nat, base.names.len(), base.strings.len()));
    }
    let inst = ir.copy_inst(id);
    if let Some(o) = operand_of(&inst) {
        let bs: Vec<Binding> = Vec::new();
        assert(bindings(bs@) =~= Seq::<(NameId, Term)>::empty());
        return Ok((bs, o));
    }
    match inst {
        Inst::ApplyFn { function, args } => {
            let ops = eval_args_from(ir, fresh, &args, limit, Ghost(base));
            finish_call(ir, fresh, ops, function, "call")
        },
        Inst::List(items) => {
            let function = ir.intern_name("fn:list");
            let ops = eval_args_from(ir, fresh, &items, limit, Ghost(base));
            finish_call(ir, fresh, ops, function, "list")
        },
        Inst::Dict { keys, values } => {
            let mut ids: Vec<InstId> = Vec::new();
            let count: usize = if keys.len() < values.len() {
                keys.len()
            } else {
                values.len()
            };
            let mut n: usize = 0;
            assert(ids@ =~= Seq::<InstId>::empty());
            while n < count
                invariant
                    n <= count,
                    ids@ == interleaved(keys@, values@, n as nat),
                decreases count - n,
            {
                ids.push(keys[n]);
                ids.push(values[n]);
                n += 1;
            }
            proof {
                lemma_interleaved(keys@, values@, count as nat, id.0 as nat);
            }
            let function = ir.intern_name("fn:map");
            let ops = eval_args_from(ir, fresh, &ids, limit, Ghost(base));
            finish_call(ir, fresh, ops, function, "map")
        },
        Inst::Struct { fields, values } => {
            let mut n: usize = 0;
            while n < fields.len()
                invariant
                    ir@.wf(),
                    g.extended_by(ir@),
                    n <= fields@.len(),
                    ir@ == with_names(g, fields@, n as nat),
                decreases fields@.len() - n,
            {
                ir.add_inst(Inst::Name(fields[n]));
                n += 1;
            }
            let function = ir.intern_name("fn:struct");
            let ops = eval_fields_from(ir, fresh, &fields, &values, limit, Ghost(base));
            finish_call(ir, fresh, ops, function, "struct")
        },
        _ => Err(PlanError::UnsupportedExpression),
    }
}

/// Plans a term: the bindings it needs and its operand.
pub(crate) fn eval(ir: &mut Ir, fresh: &mut usize, id: InstId) -> (r: Result<(Vec<Binding>, Operand), PlanError>)
    requires
        old(ir)@.wf(),
        old(ir)@.has(id),
    ensures
        final(ir)@.wf(),
        old(ir)@.extended_by(final(ir)@),
        r matches Ok((bs, o)) ==> bindings_known(bindings(bs@), final(ir)@) && operand_known(o, final(ir)@),
        (PlanState { g: final(ir)@, fresh: *final(fresh) }, evaluated_of(r)) == evaluated(
            old(ir)@,
            PlanState { g: old(ir)@, fresh: *old(fresh) },
            id,
        ),
{
    let ghost base = ir@;
    eval_from(ir, fresh, id, Ghost(base))
}

/// Plans terms from left to right.
pub(crate) fn eval_args(ir: &mut Ir, fresh: &mut usize, ids: &Vec<InstId>) -> (r: Result<(Vec<Binding>, Vec<Operand>), PlanError>)
    requires
        old(ir)@.wf(),
        ids_below(ids@, old(ir)@.nodes.len()),
    ensures
        final(ir)@.wf(),
        old(ir)@.extended_by(final(ir)@),
        r matches Ok((bs, ops)) ==> bindings_known(bindings(bs@), final(ir)@) && operands_known(
            ops@,
            final(ir)@,
        ),
        (PlanState { g: final(ir)@, fresh: *final(fresh) }, operands_of(r)) == operands(
            old(ir)@,
            PlanState { g: old(ir)@, fresh: *old(fresh) },
            ids@,
            ids@.len(),
            old(ir)@.nodes.len(),
        ),
{
    let ghost base = ir@;
    eval_args_from(ir, fresh, ids, Ghost(base.nodes.len()), Ghost(base))
}

/// The outcome of planning what a variable is bound to.
pub type Bound = Result<(Seq<(NameId, Term)>, Term), PlanError>;

/// The outcome of planning `id` as what a variable is bound to: a call stays a call.
pub open spec fn term_planned(p: PlanState, id: InstId) -> (PlanState, Bound) {
    match p.g.node(id) {
        Node::ApplyFn { function, args } => {
            let (q, ops) = operands(p.g, p, args, args.len(), p.g.nodes.len());
            match ops {
                Ok((bs, args)) => (q, Ok((bs, Term::Call { function, args }))),
                Err(e) => (q, Err(e)),
            }
        },
        _ => {
            let (q, r) = evaluated(p.g, p, id);
            match r {
                Ok((bs, o)) => (q, Ok((bs, Term::Value(o)))),
                Err(e) => (q, Err(e)),
            }
        },
    }
}

/// The model of the outcome.
pub open spec fn bound_of(r: Result<(Vec<Binding>, Expr), PlanError>) -> Bound {
    match r {
        Ok((b, e)) => Ok((bindings(b@), e@)),
        Err(e) => Err(e),
    }
}

/// Plans what a variable is bound to.
pub(crate) fn inst_to_expr(ir: &mut Ir, fresh: &mut usize, id: InstId) -> (r: Result<(Vec<Binding>, Expr), PlanError>)
    requires
        old(ir)@.wf(),
        old(ir)@.has(id),
    ensures
        final(ir)@.wf(),
        old(ir)@.extended_by(final(ir)@),
        r matches Ok((bs, e)) ==> bindings_known(bindings(bs@), final(ir)@)
            && term_known(e@, final(ir)@),
        (PlanState { g: final(ir)@, fresh: *final(fresh) }, bound_of(r)) == term_planned(
            PlanState { g: old(ir)@, fresh: *old(fresh) },
            id,
        ),
{
    proof {
        let g = ir@;
        assert(g.nodes[id.0 as int].fits(id.0 as nat, g.names.len(), g.strings.len()));
    }
    let inst = ir.copy_inst(id);
    match inst {
        Inst::ApplyFn { function, args } => match eval_args(ir, fresh, &args) {
            Ok((bs, ops)) => Ok((bs, Expr::Call { function, args: ops })),
            Err(e) => Err(e),
        },
        _ => match eval(ir, fresh, id) {
            Ok((bs, o)) => Ok((bs, Expr::Value(o))),
            Err(e) => Err(e),
        },
    }
}

} // verus!
