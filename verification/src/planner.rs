//! Planning of rules.
//!
//! A rule becomes a nest of loops over the relations of its premises, with index
//! lookups where a column is known, filters for what must hold, and bindings for
//! what must be computed. Aggregation splits a rule in blocks that hand over rows
//! in temporary relations.
use vstd::prelude::*;

use crate::ir::{ids_below, Graph, Inst, InstId, Ir, NameId, Node};
use crate::physical::{Aggregate, CompareOp, Condition, Constant, DataSource, Op, Operand};
use crate::physical::{
    all_known, fold_known, folds, known, operand_known, operands_known, lemma_all_known_grows, lemma_all_known_prefix, lemma_known_grows,
    plans, Fold, Plan, Source, Term, Test,
};
use crate::plan_expr::{
    bindings, bindings_known, evaluated, operands, simple_operand, term_planned, with_temp,
    wrapped, PlanState,
};
use crate::plan_expr::{eval, eval_args, fresh_var, inst_to_expr, operand_of, wrap, Binding, PlanError};
use crate::text::str_eq;
use crate::type_expr::copy_ids;

verus! {

/// What guides planning: the relation of which only new rows are read, the one premise that
/// does so if it is not all of them, and whether hash joins are planned.
#[derive(Clone, Copy)]
pub struct Settings {
    pub delta: Option<NameId>,
    pub at: Option<usize>,
    pub hash_join: bool,
}

impl Settings {
    /// Whether of an atom of the relation only new rows are asked for, if it is the `n`-th
    /// premise.
    pub open spec fn asks_new(self, relation: NameId, n: int) -> bool {
        self.delta == Some(relation) && (self.at matches Some(k) ==> k == n)
    }
}

/// Where the rows of a block go: into the head, or into a temporary relation.
#[derive(Clone, Copy)]
pub enum Tail {
    Head(InstId),
    Store(NameId),
}

/// The outcome of planning: the plan and the variables that are bound in its innermost
/// operation, in ascending order.
pub type Planned = Result<(Plan, Seq<NameId>), PlanError>;

/// The variables with one more, in ascending order.
pub open spec fn with_var(bound: Seq<NameId>, v: NameId) -> Seq<NameId>
    decreases bound.len(),
{
    if bound.len() == 0 || bound.last().0 < v.0 {
        bound.push(v)
    } else if bound.last() == v {
        bound
    } else {
        with_var(bound.drop_last(), v).push(bound.last())
    }
}

/// The variables with the first `n` of `vars`.
pub open spec fn with_vars(bound: Seq<NameId>, vars: Seq<NameId>, n: nat) -> Seq<NameId>
    decreases n,
{
    if n == 0 {
        bound
    } else {
        with_var(with_vars(bound, vars, (n - 1) as nat), vars[n - 1])
    }
}

/// Names in ascending order, none twice.
pub open spec fn ascending(s: Seq<NameId>) -> bool {
    forall|i: int, j: int| 0 <= i < j < s.len() ==> (#[trigger] s[i]).0 < (#[trigger] s[j]).0
}

/// Adding a variable keeps the order and adds that variable alone.
pub proof fn lemma_with_var(bound: Seq<NameId>, v: NameId)
    requires
        ascending(bound),
    ensures
        ascending(with_var(bound, v)),
        forall|w: NameId| #[trigger] with_var(bound, v).contains(w) <==> bound.contains(w) || w == v,
    decreases bound.len(),
{
    let r = with_var(bound, v);
    if bound.len() == 0 || bound.last().0 < v.0 {
        assert forall|w: NameId| #[trigger] r.contains(w) <==> bound.contains(w) || w == v by {
            assert(r[bound.len() as int] == v);
            if bound.contains(w) {
                let i = bound.index_of(w);
                assert(r[i] == w);
            }
        }
    } else if bound.last() == v {
        assert(bound[bound.len() - 1] == v);
    } else {
        let rest = bound.drop_last();
        lemma_with_var(rest, v);
        let s = with_var(rest, v);
        assert forall|w: NameId| #[trigger] r.contains(w) <==> bound.contains(w) || w == v by {
            assert(r[s.len() as int] == bound.last());
            assert(bound[bound.len() - 1] == bound.last());
            if s.contains(w) {
                assert(r[s.index_of(w)] == w);
            }
            if r.contains(w) && w != bound.last() {
                let i = r.index_of(w);
                assert(s[i] == w);
                if rest.contains(w) {
                    assert(bound[rest.index_of(w)] == w);
                }
            }
            if bound.contains(w) && w != bound.last() {
                let i = bound.index_of(w);
                assert(rest[i] == w);
            }
            if w == v {
                assert(s.contains(v));
            }
        }
        assert forall|i: int, j: int| 0 <= i < j < r.len() implies (#[trigger] r[i]).0 < (#[trigger] r[j]).0 by {
            if j == s.len() {
                assert(s.contains(s[i]));
                assert(rest.contains(s[i]) || s[i] == v);
                if rest.contains(s[i]) {
                    let k = rest.index_of(s[i]);
                    assert(bound[k].0 < bound[bound.len() - 1].0);
                }
            } else {
                assert(s[i].0 < s[j].0);
            }
        }
    }
}

/// Whether a name is in the list.
fn has_var(list: &Vec<NameId>, v: NameId) -> (r: bool)
    ensures
        r == list@.contains(v),
{
    let mut i: usize = 0;
    while i < list.len()
        invariant
            i <= list@.len(),
            forall|j: int| 0 <= j < i ==> list@[j] != v,
        decreases list@.len() - i,
    {
        if list[i] == v {
            return true;
        }
        i += 1;
    }
    false
}

/// What follows the place where a variable goes.
proof fn lemma_insert_var(bound: Seq<NameId>, v: NameId, i: int)
    requires
        0 <= i <= bound.len(),
        forall|k: int| i <= k < bound.len() ==> (#[trigger] bound[k]).0 > v.0,
    ensures
        with_var(bound, v) == with_var(bound.take(i), v) + bound.skip(i),
    decreases bound.len() - i,
{
    if i < bound.len() {
        let rest = bound.drop_last();
        assert forall|k: int| i <= k < rest.len() implies (#[trigger] rest[k]).0 > v.0 by {
            assert(bound[k].0 > v.0);
        }
        assert(bound[bound.len() - 1].0 > v.0);
        lemma_insert_var(rest, v, i);
        assert(rest.take(i) =~= bound.take(i));
        assert(bound.skip(i) =~= rest.skip(i).push(bound.last()));
        assert(with_var(bound, v) =~= with_var(bound.take(i), v) + bound.skip(i));
    } else {
        assert(bound.take(i) =~= bound);
        assert(with_var(bound, v) =~= with_var(bound.take(i), v) + bound.skip(i));
    }
}

/// Adds a variable.
fn add_var(bound: &mut Vec<NameId>, v: NameId)
    ensures
        final(bound)@ == with_var(old(bound)@, v),
{
    let ghost all = bound@;
    let mut i: usize = bound.len();
    while i > 0 && bound[i - 1].0 > v.0
        invariant
            bound@ == all,
            i <= all.len(),
            forall|k: int| i <= k < all.len() ==> (#[trigger] all[k]).0 > v.0,
        decreases i,
    {
        i -= 1;
    }
    proof {
        lemma_insert_var(all, v, i as int);
        assert(i > 0 ==> all.take(i as int).last() == all[i - 1]);
        assert(all =~= all.take(i as int) + all.skip(i as int));
    }
    if i > 0 && bound[i - 1] == v {
        return;
    }
    bound.insert(i, v);
    assert(bound@ =~= all.take(i as int).push(v) + all.skip(i as int));
}

/// The comparison that a built-in predicate makes.
pub open spec fn comparison(name: Seq<char>) -> Option<CompareOp> {
    if name == ":lt"@ || name == ":time:lt"@ || name == ":duration:lt"@ {
        Some(CompareOp::Lt)
    } else if name == ":le"@ || name == ":time:le"@ || name == ":duration:le"@ {
        Some(CompareOp::Le)
    } else if name == ":gt"@ || name == ":time:gt"@ || name == ":duration:gt"@ {
        Some(CompareOp::Gt)
    } else if name == ":ge"@ || name == ":time:ge"@ || name == ":duration:ge"@ {
        Some(CompareOp::Ge)
    } else {
        None
    }
}

fn comparison_of(name: &str) -> (r: Option<CompareOp>)
    ensures
        r == comparison(name@),
{
    if str_eq(name, ":lt") || str_eq(name, ":time:lt") || str_eq(name, ":duration:lt") {
        Some(CompareOp::Lt)
    } else if str_eq(name, ":le") || str_eq(name, ":time:le") || str_eq(name, ":duration:le") {
        Some(CompareOp::Le)
    } else if str_eq(name, ":gt") || str_eq(name, ":time:gt") || str_eq(name, ":duration:gt") {
        Some(CompareOp::Gt)
    } else if str_eq(name, ":ge") || str_eq(name, ":time:ge") || str_eq(name, ":duration:ge") {
        Some(CompareOp::Ge)
    } else {
        None
    }
}

/// Built-in predicates that test two operands.
pub open spec fn is_test(name: Seq<char>) -> bool {
    ||| name == ":string:starts_with"@
    ||| name == ":string:ends_with"@
    ||| name == ":string:contains"@
    ||| name == ":match_prefix"@
}

fn is_test_name(name: &str) -> (r: bool)
    ensures
        r == is_test(name@),
{
    str_eq(name, ":string:starts_with") || str_eq(name, ":string:ends_with") || str_eq(
        name,
        ":string:contains",
    ) || str_eq(name, ":match_prefix")
}

/// The outcome of planning two terms, the left one first.
pub open spec fn both_evaluated(p: PlanState, l: InstId, r: InstId) -> (
    PlanState,
    Result<(Seq<(NameId, Term)>, Operand, Operand), PlanError>,
) {
    let (q, a) = evaluated(p.g, p, l);
    match a {
        Err(e) => (q, Err(e)),
        Ok((bs, x)) => {
            let (s, b) = evaluated(q.g, q, r);
            match b {
                Err(e) => (s, Err(e)),
                Ok((cs, y)) => (s, Ok((bs + cs, x, y))),
            }
        },
    }
}

/// The model of the outcome.
pub open spec fn both_of(r: Result<(Vec<Binding>, Operand, Operand), PlanError>) -> Result<
    (Seq<(NameId, Term)>, Operand, Operand),
    PlanError,
> {
    match r {
        Ok((b, x, y)) => Ok((bindings(b@), x, y)),
        Err(e) => Err(e),
    }
}

/// Plans two terms, the left one first.
fn eval_both(ir: &mut Ir, fresh: &mut usize, l: InstId, r: InstId) -> (res: Result<
    (Vec<Binding>, Operand, Operand),
    PlanError,
>)
    requires
        old(ir)@.wf(),
        old(ir)@.has(l),
        old(ir)@.has(r),
    ensures
        final(ir)@.wf(),
        old(ir)@.extended_by(final(ir)@),
        res matches Ok((bs, x, y)) ==> bindings_known(bindings(bs@), final(ir)@) && operand_known(
            x,
            final(ir)@,
        ) && operand_known(y, final(ir)@),
        (PlanState { g: final(ir)@, fresh: *final(fresh) }, both_of(res)) == both_evaluated(
            PlanState { g: old(ir)@, fresh: *old(fresh) },
            l,
            r,
        ),
{
    match eval(ir, fresh, l) {
        Err(e) => Err(e),
        Ok((b, x)) => {
            let mut bs = b;
            let ghost first = bindings(bs@);
            match eval(ir, fresh, r) {
                Err(e) => Err(e),
                Ok((c, y)) => {
                    let mut cs = c;
                    let ghost second = bindings(cs@);
                    bs.append(&mut cs);
                    assert(bindings(bs@) =~= first + second);
                    Ok((bs, x, y))
                },
            }
        },
    }
}

/// A filter over `body`.
pub open spec fn filtered(cond: Test, body: Plan) -> Plan {
    Plan::Filter { cond, body: Box::new(body) }
}

/// The variables that the first `n` arguments bind, if all of them are variables, none
/// of them bound or repeated.
pub open spec fn fresh_vars(g: Graph, args: Seq<InstId>, bound: Seq<NameId>, n: nat) -> Option<Seq<NameId>>
    decreases n,
{
    if n == 0 {
        Some(Seq::empty())
    } else {
        match (fresh_vars(g, args, bound, (n - 1) as nat), g.node(args[n - 1])) {
            (Some(vs), Node::Var(v)) => if bound.contains(v) || vs.contains(v) {
                None
            } else {
                Some(vs.push(v))
            },
            _ => None,
        }
    }
}

proof fn lemma_fresh_vars_fail(g: Graph, args: Seq<InstId>, bound: Seq<NameId>, k: nat, n: nat)
    requires
        k <= n,
        fresh_vars(g, args, bound, k) is None,
    ensures
        fresh_vars(g, args, bound, n) is None,
    decreases n,
{
    if k < n {
        lemma_fresh_vars_fail(g, args, bound, k, (n - 1) as nat);
    }
}

/// The variables that the arguments of an atom bind, or `None` if an argument is bound
/// already, repeated, or no variable.
fn all_fresh_distinct_vars(ir: &Ir, args: &Vec<InstId>, bound: &Vec<NameId>) -> (r: Option<Vec<NameId>>)
    requires
        ids_below(args@, ir@.nodes.len()),
    ensures
        match fresh_vars(ir@, args@, bound@, args@.len()) {
            Some(vs) => r matches Some(v) && v@ == vs,
            None => r is None,
        },
{
    let mut out: Vec<NameId> = Vec::new();
    let mut n: usize = 0;
    assert(out@ =~= Seq::<NameId>::empty());
    while n < args.len()
        invariant
            n <= args@.len(),
            fresh_vars(ir@, args@, bound@, n as nat) == Some(out@),
        decreases args@.len() - n,
    {
        let mut var: Option<NameId> = None;
        if let Inst::Var(v) = ir.get(args[n]) {
            var = Some(*v);
        }
        match var {
            Some(v) => {
                if has_var(bound, v) || has_var(&out, v) {
                    proof {
                        lemma_fresh_vars_fail(ir@, args@, bound@, (n + 1) as nat, args@.len());
                    }
                    return None;
                }
                out.push(v);
            },
            None => {
                proof {
                    lemma_fresh_vars_fail(ir@, args@, bound@, (n + 1) as nat, args@.len());
                }
                return None;
            },
        }
        n += 1;
    }
    Some(out)
}

/// Those of the first `n` names that are in `other`.
pub open spec fn common(names: Seq<NameId>, other: Seq<NameId>, n: nat) -> Seq<NameId>
    decreases n,
{
    if n == 0 {
        Seq::empty()
    } else {
        let rest = common(names, other, (n - 1) as nat);
        if other.contains(names[n - 1]) {
            rest.push(names[n - 1])
        } else {
            rest
        }
    }
}

/// Two relations that a hash join brings together.
pub struct Joined {
    pub build_vars: Seq<NameId>,
    pub probe: NameId,
    pub probe_vars: Seq<NameId>,
    pub keys: Seq<NameId>,
}

/// The predicate is built in.
pub open spec fn built_in(name: Seq<char>) -> bool {
    comparison(name) is Some || is_test(name)
}

/// The hash join of an atom with the next premise: both are atoms of relations with fresh
/// variables, and they share one.
pub open spec fn hash_joined(g: Graph, s: Settings, args: Seq<InstId>, next: InstId, bound: Seq<NameId>) -> Option<Joined> {
    match (fresh_vars(g, args, bound, args.len()), g.node(next)) {
        (Some(build_vars), Node::Atom { predicate, args: next_args }) => if s.delta == Some(predicate)
            || built_in(g.name(predicate)) {
            None
        } else {
            match fresh_vars(g, next_args, bound, next_args.len()) {
                Some(probe_vars) => {
                    let keys = common(build_vars, probe_vars, build_vars.len());
                    if keys.len() == 0 {
                        None
                    } else {
                        Some(Joined { build_vars, probe: predicate, probe_vars, keys })
                    }
                },
                None => None,
            }
        },
        _ => None,
    }
}

/// Plans the hash join of an atom with the next premise, if the two have the shape for it:
/// the variables of the first, the predicate and variables of the second, and the keys.
fn try_plan_hash_join(ir: &Ir, s: Settings, args: &Vec<InstId>, next: InstId, bound: &Vec<NameId>) -> (r: Option<
    (Vec<NameId>, NameId, Vec<NameId>, Vec<NameId>),
>)
    requires
        ir@.wf(),
        ids_below(args@, ir@.nodes.len()),
        ir@.has(next),
    ensures
        match hash_joined(ir@, s, args@, next, bound@) {
            Some(j) => r matches Some((bv, p, pv, keys)) && bv@ == j.build_vars && p == j.probe
                && pv@ == j.probe_vars && keys@ == j.keys,
            None => r is None,
        },
{
    let build_vars = match all_fresh_distinct_vars(ir, args, bound) {
        Some(v) => v,
        None => return None,
    };
    assert(ir@.nodes[next.0 as int].fits(next.0 as nat, ir@.names.len(), ir@.strings.len()));
    let (probe, next_args) = match ir.get(next) {
        Inst::Atom { predicate, args } => (*predicate, args),
        _ => return None,
    };
    if let Some(d) = s.delta {
        if d == probe {
            return None;
        }
    }
    let name = ir.resolve_name(probe);
    if comparison_of(name).is_some() || is_test_name(name) {
        return None;
    }
    let probe_vars = match all_fresh_distinct_vars(ir, next_args, bound) {
        Some(v) => v,
        None => return None,
    };
    let mut keys: Vec<NameId> = Vec::new();
    let mut n: usize = 0;
    assert(keys@ =~= Seq::<NameId>::empty());
    while n < build_vars.len()
        invariant
            n <= build_vars@.len(),
            keys@ == common(build_vars@, probe_vars@, n as nat),
        decreases build_vars@.len() - n,
    {
        if has_var(&probe_vars, build_vars[n]) {
            keys.push(build_vars[n]);
        }
        n += 1;
    }
    if keys.len() == 0 {
        return None;
    }
    Some((build_vars, probe, probe_vars, keys))
}

/// The key that an argument gives for an index lookup: a bound variable or a constant.
pub open spec fn key_operand(n: Node, bound: Seq<NameId>) -> Option<Operand> {
    match n {
        Node::Var(v) => if bound.contains(v) {
            Some(Operand::Var(v))
        } else {
            None
        },
        _ => simple_operand(n),
    }
}

/// The first argument from `i` on that gives a key.
pub open spec fn first_key(g: Graph, args: Seq<InstId>, bound: Seq<NameId>, i: int) -> Option<(usize, Operand)>
    decreases args.len() - i,
{
    if i < 0 || i >= args.len() {
        None
    } else {
        match key_operand(g.node(args[i]), bound) {
            Some(o) => Some((i as usize, o)),
            None => first_key(g, args, bound, i + 1),
        }
    }
}

fn find_key(ir: &Ir, args: &Vec<InstId>, bound: &Vec<NameId>) -> (r: Option<(usize, Operand)>)
    requires
        ir@.wf(),
        ids_below(args@, ir@.nodes.len()),
    ensures
        r == first_key(ir@, args@, bound@, 0),
        r matches Some((_, o)) ==> operand_known(o, ir@),
{
    let mut i: usize = 0;
    while i < args.len()
        invariant
            i <= args@.len(),
            first_key(ir@, args@, bound@, 0) == first_key(ir@, args@, bound@, i as int),
        decreases args@.len() - i,
    {
        proof {
            let g = ir@;
            assert(g.nodes[args@[i as int].0 as int].fits(
                args@[i as int].0 as nat,
                g.names.len(),
                g.strings.len(),
            ));
        }
        let inst = ir.get(args[i]);
        let usable = match inst {
            Inst::Var(v) => has_var(bound, *v),
            _ => true,
        };
        if usable {
            if let Some(o) = operand_of(inst) {
                return Some((i, o));
            }
        }
        i += 1;
    }
    None
}

/// The variables that a row of a relation goes to: an unbound variable itself, where it comes
/// first, a temporary for every other argument.
pub open spec fn scan_vars(p: PlanState, args: Seq<InstId>, bound: Seq<NameId>, n: nat) -> (PlanState, Seq<NameId>)
    decreases n,
{
    if n == 0 {
        (p, Seq::empty())
    } else {
        let (q, vars) = scan_vars(p, args, bound, (n - 1) as nat);
        match p.g.node(args[n - 1]) {
            Node::Var(v) => if !bound.contains(v) && !vars.contains(v) {
                (q, vars.push(v))
            } else {
                let (r, temp) = with_temp(q, "scan"@);
                (r, vars.push(temp))
            },
            _ => {
                let (r, temp) = with_temp(q, "scan"@);
                (r, vars.push(temp))
            },
        }
    }
}

fn plan_scan_vars(ir: &mut Ir, fresh: &mut usize, args: &Vec<InstId>, bound: &Vec<NameId>) -> (r: Vec<NameId>)
    requires
        old(ir)@.wf(),
        ids_below(args@, old(ir)@.nodes.len()),
    ensures
        final(ir)@.wf(),
        old(ir)@.extended_by(final(ir)@),
        (PlanState { g: final(ir)@, fresh: *final(fresh) }, r@) == scan_vars(
            PlanState { g: old(ir)@, fresh: *old(fresh) },
            args@,
            bound@,
            args@.len(),
        ),
        r@.len() == args@.len(),
{
    let ghost g = ir@;
    let ghost start = PlanState { g, fresh: *fresh };
    let mut r: Vec<NameId> = Vec::new();
    let mut n: usize = 0;
    assert(r@ =~= Seq::<NameId>::empty());
    while n < args.len()
        invariant
            ir@.wf(),
            g.extended_by(ir@),
            ir@.nodes == g.nodes,
            n <= args@.len(),
            r@.len() == n,
            (PlanState { g: ir@, fresh: *fresh }, r@) == scan_vars(start, args@, bound@, n as nat),
        decreases args@.len() - n,
    {
        let mut own: Option<NameId> = None;
        if let Inst::Var(v) = ir.get(args[n]) {
            if !has_var(bound, *v) && !has_var(&r, *v) {
                own = Some(*v);
            }
        }
        match own {
            Some(v) => {
                r.push(v);
            },
            None => {
                let temp = fresh_var(ir, fresh, "scan");
                r.push(temp);
            },
        }
        n += 1;
    }
    r
}

/// `body` where the first `n` arguments equal the variables that the row went to.
pub open spec fn constrained(p: PlanState, args: Seq<InstId>, vars: Seq<NameId>, n: nat, body: Plan) -> (
    PlanState,
    Result<Plan, PlanError>,
)
    decreases n,
{
    if n == 0 {
        (p, Ok(body))
    } else {
        let var = vars[n - 1];
        match p.g.node(args[n - 1]) {
            Node::Var(v) => if v == var {
                constrained(p, args, vars, (n - 1) as nat, body)
            } else {
                let cond = Test::Compare {
                    op: CompareOp::Eq,
                    left: Operand::Var(var),
                    right: Operand::Var(v),
                };
                constrained(p, args, vars, (n - 1) as nat, filtered(cond, body))
            },
            _ => {
                let (q, r) = evaluated(p.g, p, args[n - 1]);
                match r {
                    Err(e) => (q, Err(e)),
                    Ok((bs, o)) => {
                        let cond = Test::Compare {
                            op: CompareOp::Eq,
                            left: Operand::Var(var),
                            right: o,
                        };
                        constrained(
                            q,
                            args,
                            vars,
                            (n - 1) as nat,
                            wrapped(bs, filtered(cond, body)),
                        )
                    },
                }
            },
        }
    }
}

/// The model of the outcome of planning an operation.
pub open spec fn op_of(r: Result<Op, PlanError>) -> Result<Plan, PlanError> {
    match r {
        Ok(op) => Ok(op@),
        Err(e) => Err(e),
    }
}

/// Adds the filters that the arguments of an atom ask for.
fn apply_constraints(ir: &mut Ir, fresh: &mut usize, args: &Vec<InstId>, vars: &Vec<NameId>, body: Op) -> (r: Result<
    Op,
    PlanError,
>)
    requires
        old(ir)@.wf(),
        ids_below(args@, old(ir)@.nodes.len()),
        args@.len() == vars@.len(),
        known(body@, old(ir)@),
    ensures
        final(ir)@.wf(),
        old(ir)@.extended_by(final(ir)@),
        r matches Ok(op) ==> known(op@, final(ir)@),
        (PlanState { g: final(ir)@, fresh: *final(fresh) }, op_of(r)) == constrained(
            PlanState { g: old(ir)@, fresh: *old(fresh) },
            args@,
            vars@,
            args@.len(),
            body@,
        ),
{
    let ghost g = ir@;
    let ghost goal = constrained(
        PlanState { g: ir@, fresh: *fresh },
        args@,
        vars@,
        args@.len(),
        body@,
    );
    let mut op = body;
    let mut n: usize = args.len();
    while n > 0
        invariant
            ir@.wf(),
            g.extended_by(ir@),
            n <= args@.len(),
            known(op@, ir@),
            goal == constrained(
                PlanState { g: ir@, fresh: *fresh },
                args@,
                vars@,
                n as nat,
                op@,
            ),
        decreases n,
    {
        let var = vars[n - 1];
        let mut other: Option<NameId> = None;
        if let Inst::Var(v) = ir.get(args[n - 1]) {
            other = Some(*v);
        }
        match other {
            Some(v) => {
                if v != var {
                    op =
                    Op::Filter {
                        cond: Condition::Compare {
                            op: CompareOp::Eq,
                            left: Operand::Var(var),
                            right: Operand::Var(v),
                        },
                        body: Box::new(op),
                    };
                }
            },
            None => {
                match wrap_eval_check(ir, fresh, args[n - 1], Operand::Var(var), op) {
                    Ok(made) => {
                        op = made;
                    },
                    Err(e) => {
                        return Err(e);
                    },
                }
            },
        }
        n -= 1;
    }
    Ok(op)
}

/// `body` where the term equals `target`.
fn wrap_eval_check(ir: &mut Ir, fresh: &mut usize, id: InstId, target: Operand, body: Op) -> (r: Result<
    Op,
    PlanError,
>)
    requires
        old(ir)@.wf(),
        old(ir)@.has(id),
        operand_known(target, old(ir)@),
        known(body@, old(ir)@),
    ensures
        final(ir)@.wf(),
        old(ir)@.extended_by(final(ir)@),
        r matches Ok(op) ==> known(op@, final(ir)@),
        ({
            let (q, e) = evaluated(old(ir)@, PlanState { g: old(ir)@, fresh: *old(fresh) }, id);
            &&& q == PlanState { g: final(ir)@, fresh: *final(fresh) }
            &&& op_of(r) == match e {
                Ok((bs, o)) => Ok(
                    wrapped(
                        bs,
                        filtered(
                            Test::Compare { op: CompareOp::Eq, left: target, right: o },
                            body@,
                        ),
                    ),
                ),
                Err(e) => Err::<Plan, PlanError>(e),
            }
        }),
{
    let ghost n = ir@;
    match eval(ir, fresh, id) {
        Ok((bs, o)) => {
            proof {
                lemma_known_grows(body@, n, ir@);
            }
            Ok(
                wrap(
                    bs,
                    Op::Filter {
                        cond: Condition::Compare { op: CompareOp::Eq, left: target, right: o },
                        body: Box::new(body),
                    },
                ),
            )
        },
        Err(e) => Err(e),
    }
}

/// The operands of the arguments of a negated atom, if all are simple.
pub open spec fn simple_operands(g: Graph, args: Seq<InstId>, n: nat) -> Option<Seq<Operand>>
    decreases n,
{
    if n == 0 {
        Some(Seq::empty())
    } else {
        match (simple_operands(g, args, (n - 1) as nat), simple_operand(g.node(args[n - 1]))) {
            (Some(ops), Some(o)) => Some(ops.push(o)),
            _ => None,
        }
    }
}

proof fn lemma_simple_fail(g: Graph, args: Seq<InstId>, k: nat, n: nat)
    requires
        k <= n,
        simple_operands(g, args, k) is None,
    ensures
        simple_operands(g, args, n) is None,
    decreases n,
{
    if k < n {
        lemma_simple_fail(g, args, k, (n - 1) as nat);
    }
}

fn simple_args(ir: &Ir, args: &Vec<InstId>) -> (r: Option<Vec<Operand>>)
    requires
        ir@.wf(),
        ids_below(args@, ir@.nodes.len()),
    ensures
        match simple_operands(ir@, args@, args@.len()) {
            Some(ops) => r matches Some(v) && v@ == ops && operands_known(ops, ir@),
            None => r is None,
        },
{
    let mut out: Vec<Operand> = Vec::new();
    let mut n: usize = 0;
    assert(out@ =~= Seq::<Operand>::empty());
    while n < args.len()
        invariant
            n <= args@.len(),
            simple_operands(ir@, args@, n as nat) == Some(out@),
            operands_known(out@, ir@),
        decreases args@.len() - n,
    {
        proof {
            let g = ir@;
            assert(g.nodes[args@[n as int].0 as int].fits(
                args@[n as int].0 as nat,
                g.names.len(),
                g.strings.len(),
            ));
        }
        match operand_of(ir.get(args[n])) {
            Some(o) => {
                out.push(o);
            },
            None => {
                proof {
                    lemma_simple_fail(ir@, args@, (n + 1) as nat, args@.len());
                }
                return None;
            },
        }
        n += 1;
    }
    Some(out)
}

/// The operands of variables.
pub open spec fn var_operands(vars: Seq<NameId>) -> Seq<Operand> {
    Seq::new(vars.len(), |i: int| Operand::Var(vars[i]))
}

/// The innermost operation of a block: the rows go to the head, or the bound variables to a
/// temporary relation.
pub open spec fn tail_planned(p: PlanState, bound: Seq<NameId>, tail: Tail) -> (PlanState, Planned) {
    match tail {
        Tail::Head(head) => match p.g.node(head) {
            Node::Atom { predicate, args } => {
                let (q, r) = operands(p.g, p, args, args.len(), p.g.nodes.len());
                match r {
                    Ok((bs, ops)) => (
                        q,
                        Ok((wrapped(bs, Plan::Insert { relation: predicate, args: ops }), bound)),
                    ),
                    Err(e) => (q, Err(e)),
                }
            },
            _ => (p, Err(PlanError::HeadNotAtom)),
        },
        Tail::Store(relation) => (
            p,
            Ok((Plan::Insert { relation, args: var_operands(bound) }, bound)),
        ),
    }
}

/// The plan of the transforms from `i` on: each binds a variable for the rest.
pub open spec fn lets_planned(p: PlanState, lets: Seq<InstId>, i: int, bound: Seq<NameId>, tail: Tail) -> (PlanState, Planned)
    decreases lets.len() - i,
{
    if i < 0 || i >= lets.len() {
        tail_planned(p, bound, tail)
    } else {
        match p.g.node(lets[i]) {
            Node::Transform { var: Some(v), app } => {
                let (q, r) = term_planned(p, app);
                match r {
                    Err(e) => (q, Err(e)),
                    Ok((bs, expr)) => {
                        let (s, body) = lets_planned(q, lets, i + 1, with_var(bound, v), tail);
                        match body {
                            Err(e) => (s, Err(e)),
                            Ok((b, vars)) => (
                                s,
                                Ok(
                                    (
                                        wrapped(bs, Plan::Let { var: v, expr, body: Box::new(b) }),
                                        vars,
                                    ),
                                ),
                            ),
                        }
                    },
                }
            },
            _ => (p, Err(PlanError::UnexpectedTransform)),
        }
    }
}

/// The outcome of putting a filter on two terms around `body`.
pub open spec fn filter_on(q: PlanState, body: Planned, l: InstId, r: InstId, kind: FilterKind) -> (PlanState, Planned) {
    match body {
        Err(e) => (q, Err(e)),
        Ok((b, vars)) => {
            let (s, ops) = both_evaluated(q, l, r);
            match ops {
                Err(e) => (s, Err(e)),
                Ok((bs, x, y)) => (s, Ok((wrapped(bs, filtered(kind.test(x, y), b)), vars))),
            }
        },
    }
}

/// What a filter on two operands tests.
#[derive(Clone, Copy)]
pub enum FilterKind {
    Compare(CompareOp),
    Call(NameId),
}

impl FilterKind {
    /// The test of two operands.
    pub open spec fn test(self, x: Operand, y: Operand) -> Test {
        match self {
            FilterKind::Compare(op) => Test::Compare { op, left: x, right: y },
            FilterKind::Call(function) => Test::Call { function, args: seq![x, y] },
        }
    }
}

/// The plan of the premises from `i` on, then of the transforms `lets`, then of the tail.
pub open spec fn premises_planned(
    s: Settings,
    p: PlanState,
    premises: Seq<InstId>,
    i: int,
    bound: Seq<NameId>,
    lets: Seq<InstId>,
    tail: Tail,
) -> (PlanState, Planned)
    decreases premises.len() - i,
{
    if i < 0 || i >= premises.len() {
        lets_planned(p, lets, 0, bound, tail)
    } else {
        let g = p.g;
        match g.node(premises[i]) {
            Node::Atom { predicate, args } => {
                let name = g.name(predicate);
                match comparison(name) {
                    Some(op) => if args.len() != 2 {
                        (p, Err(PlanError::ComparisonArity))
                    } else {
                        let (q, body) = premises_planned(s, p, premises, i + 1, bound, lets, tail);
                        filter_on(q, body, args[0], args[1], FilterKind::Compare(op))
                    },
                    None => if is_test(name) {
                        if args.len() != 2 {
                            (p, Err(PlanError::BuiltinArity))
                        } else {
                            let (q, body) = premises_planned(s, p, premises, i + 1, bound, lets, tail);
                            filter_on(q, body, args[0], args[1], FilterKind::Call(predicate))
                        }
                    } else {
                        let joined = if s.hash_join && s.delta is None && i + 1 < premises.len() {
                            hash_joined(g, s, args, premises[i + 1], bound)
                        } else {
                            None
                        };
                        match joined {
                            Some(j) => {
                                let inner = with_vars(
                                    with_vars(bound, j.build_vars, j.build_vars.len()),
                                    j.probe_vars,
                                    j.probe_vars.len(),
                                );
                                let (q, body) = premises_planned(
                                    s,
                                    p,
                                    premises,
                                    i + 2,
                                    inner,
                                    lets,
                                    tail,
                                );
                                match body {
                                    Err(e) => (q, Err(e)),
                                    Ok((b, vars)) => (
                                        q,
                                        Ok(
                                            (
                                                Plan::HashJoin {
                                                    build_source: Source::Scan {
                                                        relation: predicate,
                                                        vars: j.build_vars,
                                                    },
                                                    probe_source: Source::Scan {
                                                        relation: j.probe,
                                                        vars: j.probe_vars,
                                                    },
                                                    join_keys: j.keys,
                                                    body: Box::new(b),
                                                },
                                                vars,
                                            ),
                                        ),
                                    ),
                                }
                            },
                            None => {
                                let key = first_key(g, args, bound, 0);
                                let (q, vars) = scan_vars(p, args, bound, args.len());
                                let inner = with_vars(bound, vars, vars.len());
                                let (r, body) = premises_planned(
                                    s,
                                    q,
                                    premises,
                                    i + 1,
                                    inner,
                                    lets,
                                    tail,
                                );
                                match body {
                                    Err(e) => (r, Err(e)),
                                    Ok((b, last)) => {
                                        let (t, c) = constrained(r, args, vars, args.len(), b);
                                        match c {
                                            Err(e) => (t, Err(e)),
                                            Ok(c) => (
                                                t,
                                                Ok(
                                                    (
                                                        Plan::Iterate {
                                                            source: source_of(
                                                                s,
                                                                predicate,
                                                                i,
                                                                key,
                                                                vars,
                                                            ),
                                                            body: Box::new(c),
                                                        },
                                                        last,
                                                    ),
                                                ),
                                            ),
                                        }
                                    },
                                }
                            },
                        }
                    },
                }
            },
            Node::Eq(l, r) => match g.node(l) {
                Node::Var(v) => if bound.contains(v) {
                    let (q, body) = premises_planned(s, p, premises, i + 1, bound, lets, tail);
                    filter_on(q, body, l, r, FilterKind::Compare(CompareOp::Eq))
                } else {
                    let (q, t) = term_planned(p, r);
                    match t {
                        Err(e) => (q, Err(e)),
                        Ok((bs, expr)) => {
                            let (u, body) = premises_planned(
                                s,
                                q,
                                premises,
                                i + 1,
                                with_var(bound, v),
                                lets,
                                tail,
                            );
                            match body {
                                Err(e) => (u, Err(e)),
                                Ok((b, vars)) => (
                                    u,
                                    Ok(
                                        (
                                            wrapped(
                                                bs,
                                                Plan::Let { var: v, expr, body: Box::new(b) },
                                            ),
                                            vars,
                                        ),
                                    ),
                                ),
                            }
                        },
                    }
                },
                _ => {
                    let (q, body) = premises_planned(s, p, premises, i + 1, bound, lets, tail);
                    filter_on(q, body, l, r, FilterKind::Compare(CompareOp::Eq))
                },
            },
            Node::Ineq(l, r) => {
                let (q, body) = premises_planned(s, p, premises, i + 1, bound, lets, tail);
                filter_on(q, body, l, r, FilterKind::Compare(CompareOp::Neq))
            },
            Node::NegAtom(inner) => match g.node(inner) {
                Node::Atom { predicate, args } => {
                    let (q, body) = premises_planned(s, p, premises, i + 1, bound, lets, tail);
                    match body {
                        Err(e) => (q, Err(e)),
                        Ok((b, vars)) => match simple_operands(q.g, args, args.len()) {
                            Some(ops) => (
                                q,
                                Ok(
                                    (
                                        filtered(
                                            Test::Negation { relation: predicate, args: ops },
                                            b,
                                        ),
                                        vars,
                                    ),
                                ),
                            ),
                            None => (q, Err(PlanError::NegatedTerm)),
                        },
                    }
                },
                _ => (p, Err(PlanError::NegatedNonAtom)),
            },
            _ => (p, Err(PlanError::UnsupportedPremise(premises[i]))),
        }
    }
}

/// Where the rows of an atom that is the `n`-th premise come from: an index lookup where a
/// column is known, the new rows of the relation that changed where they are asked for, all
/// rows elsewhere.
pub open spec fn source_of(
    s: Settings,
    relation: NameId,
    n: int,
    key: Option<(usize, Operand)>,
    vars: Seq<NameId>,
) -> Source {
    match key {
        Some((col_idx, key)) => Source::IndexLookup { relation, col_idx, key, vars },
        None => if s.asks_new(relation, n) {
            Source::ScanDelta { relation, vars }
        } else {
            Source::Scan { relation, vars }
        },
    }
}

/// The model of the outcome of planning a block.
pub open spec fn planned_of(r: Result<(Op, Vec<NameId>), PlanError>) -> Planned {
    match r {
        Ok((op, vars)) => Ok((op@, vars@)),
        Err(e) => Err(e),
    }
}

/// A tail refers to what the graph holds.
pub open spec fn tail_in(tail: Tail, g: Graph) -> bool {
    match tail {
        Tail::Head(head) => g.has(head),
        Tail::Store(relation) => g.has_name(relation),
    }
}

/// Plans the innermost operation of a block.
fn plan_tail(ir: &mut Ir, fresh: &mut usize, bound: Vec<NameId>, tail: Tail) -> (r: Result<
    (Op, Vec<NameId>),
    PlanError,
>)
    requires
        old(ir)@.wf(),
        tail_in(tail, old(ir)@),
    ensures
        final(ir)@.wf(),
        old(ir)@.extended_by(final(ir)@),
        r matches Ok((op, _)) ==> known(op@, final(ir)@),
        (PlanState { g: final(ir)@, fresh: *final(fresh) }, planned_of(r)) == tail_planned(
            PlanState { g: old(ir)@, fresh: *old(fresh) },
            bound@,
            tail,
        ),
{
    match tail {
        Tail::Head(head) => plan_head_insert(ir, fresh, head, bound),
        Tail::Store(relation) => {
            let mut args: Vec<Operand> = Vec::new();
            let mut i: usize = 0;
            while i < bound.len()
                invariant
                    i <= bound@.len(),
                    args@ == var_operands(bound@).take(i as int),
                decreases bound@.len() - i,
            {
                args.push(Operand::Var(bound[i]));
                i += 1;
                assert(args@ =~= var_operands(bound@).take(i as int));
            }
            assert(args@ =~= var_operands(bound@));
            Ok((Op::Insert { relation, args }, bound))
        },
    }
}

/// Plans the insertion of a row of the head.
fn plan_head_insert(ir: &mut Ir, fresh: &mut usize, head: InstId, bound: Vec<NameId>) -> (r: Result<
    (Op, Vec<NameId>),
    PlanError,
>)
    requires
        old(ir)@.wf(),
        old(ir)@.has(head),
    ensures
        final(ir)@.wf(),
        old(ir)@.extended_by(final(ir)@),
        r matches Ok((op, _)) ==> known(op@, final(ir)@),
        (PlanState { g: final(ir)@, fresh: *final(fresh) }, planned_of(r)) == tail_planned(
            PlanState { g: old(ir)@, fresh: *old(fresh) },
            bound@,
            Tail::Head(head),
        ),
{
    proof {
        let g = ir@;
        assert(g.nodes[head.0 as int].fits(head.0 as nat, g.names.len(), g.strings.len()));
    }
    match ir.copy_inst(head) {
        Inst::Atom { predicate, args } => match eval_args(ir, fresh, &args) {
            Ok((bs, ops)) => Ok((wrap(bs, Op::Insert { relation: predicate, args: ops }), bound)),
            Err(e) => Err(e),
        },
        _ => Err(PlanError::HeadNotAtom),
    }
}

/// Plans the transforms from `i` on and the tail.
fn plan_transforms_sequence(
    ir: &mut Ir,
    fresh: &mut usize,
    lets: &Vec<InstId>,
    i: usize,
    bound: Vec<NameId>,
    tail: Tail,
) -> (r: Result<(Op, Vec<NameId>), PlanError>)
    requires
        old(ir)@.wf(),
        ids_below(lets@, old(ir)@.nodes.len()),
        tail_in(tail, old(ir)@),
        i <= lets@.len(),
    ensures
        final(ir)@.wf(),
        old(ir)@.extended_by(final(ir)@),
        r matches Ok((op, _)) ==> known(op@, final(ir)@),
        (PlanState { g: final(ir)@, fresh: *final(fresh) }, planned_of(r)) == lets_planned(
            PlanState { g: old(ir)@, fresh: *old(fresh) },
            lets@,
            i as int,
            bound@,
            tail,
        ),
    decreases lets@.len() - i,
{
    if i >= lets.len() {
        return plan_tail(ir, fresh, bound, tail);
    }
    proof {
        let g = ir@;
        let t = lets@[i as int];
        assert(g.nodes[t.0 as int].fits(t.0 as nat, g.names.len(), g.strings.len()));
    }
    let (var, app) = match ir.get(lets[i]) {
        Inst::Transform { var, app } => match var {
            Some(v) => (*v, *app),
            None => return Err(PlanError::UnexpectedTransform),
        },
        _ => return Err(PlanError::UnexpectedTransform),
    };
    match inst_to_expr(ir, fresh, app) {
        Err(e) => Err(e),
        Ok((bs, expr)) => {
            let mut inner = bound;
            add_var(&mut inner, var);
            match plan_transforms_sequence(ir, fresh, lets, i + 1, inner, tail) {
                Err(e) => Err(e),
                Ok((body, vars)) => Ok((wrap(bs, Op::Let { var, expr, body: Box::new(body) }), vars)),
            }
        },
    }
}

/// Puts a filter on two terms around a plan.
fn plan_filter(
    ir: &mut Ir,
    fresh: &mut usize,
    body: Result<(Op, Vec<NameId>), PlanError>,
    l: InstId,
    r: InstId,
    kind: FilterKind,
) -> (res: Result<(Op, Vec<NameId>), PlanError>)
    requires
        old(ir)@.wf(),
        old(ir)@.has(l),
        old(ir)@.has(r),
        body matches Ok((b, _)) ==> known(b@, old(ir)@),
        kind matches FilterKind::Call(f) ==> old(ir)@.has_name(f),
    ensures
        final(ir)@.wf(),
        old(ir)@.extended_by(final(ir)@),
        res matches Ok((op, _)) ==> known(op@, final(ir)@),
        (PlanState { g: final(ir)@, fresh: *final(fresh) }, planned_of(res)) == filter_on(
            PlanState { g: old(ir)@, fresh: *old(fresh) },
            planned_of(body),
            l,
            r,
            kind,
        ),
{
    let ghost n = ir@;
    match body {
        Err(e) => Err(e),
        Ok((b, vars)) => match eval_both(ir, fresh, l, r) {
            Err(e) => Err(e),
            Ok((bs, x, y)) => {
                proof {
                    lemma_known_grows(b@, n, ir@);
                }
                let cond = match kind {
                    FilterKind::Compare(op) => Condition::Compare { op, left: x, right: y },
                    FilterKind::Call(function) => {
                        let args: Vec<Operand> = vec![x, y];
                        assert(args@ =~= seq![x, y]);
                        Condition::Call { function, args }
                    },
                };
                Ok((wrap(bs, Op::Filter { cond, body: Box::new(b) }), vars))
            },
        },
    }
}

/// Adds variables.
fn add_vars(bound: &mut Vec<NameId>, vars: &Vec<NameId>)
    ensures
        final(bound)@ == with_vars(old(bound)@, vars@, vars@.len()),
{
    let ghost start = bound@;
    let mut n: usize = 0;
    while n < vars.len()
        invariant
            n <= vars@.len(),
            bound@ == with_vars(start, vars@, n as nat),
        decreases vars@.len() - n,
    {
        add_var(bound, vars[n]);
        n += 1;
    }
}

/// Plans the premises from `i` on, then the transforms, then the tail.
#[verifier::rlimit(80)]
#[verifier::spinoff_prover]
fn plan_join_sequence(
    ir: &mut Ir,
    fresh: &mut usize,
    s: Settings,
    premises: &Vec<InstId>,
    i: usize,
    bound: Vec<NameId>,
    lets: &Vec<InstId>,
    tail: Tail,
) -> (res: Result<(Op, Vec<NameId>), PlanError>)
    requires
        old(ir)@.wf(),
        ids_below(premises@, old(ir)@.nodes.len()),
        ids_below(lets@, old(ir)@.nodes.len()),
        tail_in(tail, old(ir)@),
        i <= premises@.len(),
    ensures
        final(ir)@.wf(),
        old(ir)@.extended_by(final(ir)@),
        res matches Ok((op, _)) ==> known(op@, final(ir)@),
        (PlanState { g: final(ir)@, fresh: *final(fresh) }, planned_of(res)) == premises_planned(
            s,
            PlanState { g: old(ir)@, fresh: *old(fresh) },
            premises@,
            i as int,
            bound@,
            lets@,
            tail,
        ),
    decreases premises@.len() - i, 1nat,
{
    if i >= premises.len() {
        return plan_transforms_sequence(ir, fresh, lets, 0, bound, tail);
    }
    let premise = premises[i];
    proof {
        let g = ir@;
        assert(g.nodes[premise.0 as int].fits(premise.0 as nat, g.names.len(), g.strings.len()));
    }
    match ir.copy_inst(premise) {
        Inst::Atom { predicate, args } => {
            let name = ir.resolve_name(predicate);
            let compare = comparison_of(name);
            let test = is_test_name(name);
            if let Some(op) = compare {
                if args.len() != 2 {
                    return Err(PlanError::ComparisonArity);
                }
                let body = plan_join_sequence(ir, fresh, s, premises, i + 1, bound, lets, tail);
                return plan_filter(ir, fresh, body, args[0], args[1], FilterKind::Compare(op));
            }
            if test {
                if args.len() != 2 {
                    return Err(PlanError::BuiltinArity);
                }
                let body = plan_join_sequence(ir, fresh, s, premises, i + 1, bound, lets, tail);
                return plan_filter(ir, fresh, body, args[0], args[1], FilterKind::Call(predicate));
            }
            plan_atom(ir, fresh, s, premises, i, bound, lets, tail, predicate, args)
        },
        Inst::Eq(l, r) => {
            let mut fresh_left: Option<NameId> = None;
            if let Inst::Var(v) = ir.get(l) {
                if !has_var(&bound, *v) {
                    fresh_left = Some(*v);
                }
            }
            match fresh_left {
                Some(v) => match inst_to_expr(ir, fresh, r) {
                    Err(e) => Err(e),
                    Ok((bs, expr)) => {
                        let mut inner = bound;
                        add_var(&mut inner, v);
                        match plan_join_sequence(ir, fresh, s, premises, i + 1, inner, lets, tail) {
                            Err(e) => Err(e),
                            Ok((body, vars)) => Ok(
                                (wrap(bs, Op::Let { var: v, expr, body: Box::new(body) }), vars),
                            ),
                        }
                    },
                },
                None => {
                    let body = plan_join_sequence(ir, fresh, s, premises, i + 1, bound, lets, tail);
                    plan_filter(ir, fresh, body, l, r, FilterKind::Compare(CompareOp::Eq))
                },
            }
        },
        Inst::Ineq(l, r) => {
            let body = plan_join_sequence(ir, fresh, s, premises, i + 1, bound, lets, tail);
            plan_filter(ir, fresh, body, l, r, FilterKind::Compare(CompareOp::Neq))
        },
        Inst::NegAtom(inner) => {
            proof {
                let g = ir@;
                assert(g.nodes[inner.0 as int].fits(inner.0 as nat, g.names.len(), g.strings.len()));
            }
            match ir.copy_inst(inner) {
                Inst::Atom { predicate, args } => {
                    match plan_join_sequence(ir, fresh, s, premises, i + 1, bound, lets, tail) {
                        Err(e) => Err(e),
                        Ok((body, vars)) => match simple_args(ir, &args) {
                            Some(ops) => Ok(
                                (
                                    Op::Filter {
                                        cond: Condition::Negation { relation: predicate, args: ops },
                                        body: Box::new(body),
                                    },
                                    vars,
                                ),
                            ),
                            None => Err(PlanError::NegatedTerm),
                        },
                    }
                },
                _ => Err(PlanError::NegatedNonAtom),
            }
        },
        _ => Err(PlanError::UnsupportedPremise(premise)),
    }
}

/// Plans an atom of a relation and what follows it.
#[verifier::rlimit(80)]
#[verifier::spinoff_prover]
fn plan_atom(
    ir: &mut Ir,
    fresh: &mut usize,
    s: Settings,
    premises: &Vec<InstId>,
    i: usize,
    bound: Vec<NameId>,
    lets: &Vec<InstId>,
    tail: Tail,
    predicate: NameId,
    args: Vec<InstId>,
) -> (res: Result<(Op, Vec<NameId>), PlanError>)
    requires
        old(ir)@.wf(),
        ids_below(premises@, old(ir)@.nodes.len()),
        ids_below(lets@, old(ir)@.nodes.len()),
        tail_in(tail, old(ir)@),
        i < premises@.len(),
        old(ir)@.node(premises@[i as int]) == (Node::Atom { predicate, args: args@ }),
        comparison(old(ir)@.name(predicate)) is None,
        !is_test(old(ir)@.name(predicate)),
        ids_below(args@, old(ir)@.nodes.len()),
    ensures
        final(ir)@.wf(),
        old(ir)@.extended_by(final(ir)@),
        res matches Ok((op, _)) ==> known(op@, final(ir)@),
        (PlanState { g: final(ir)@, fresh: *final(fresh) }, planned_of(res)) == premises_planned(
            s,
            PlanState { g: old(ir)@, fresh: *old(fresh) },
            premises@,
            i as int,
            bound@,
            lets@,
            tail,
        ),
    decreases premises@.len() - i, 0nat,
{
    assert(i < premises.len());
    if s.hash_join && s.delta.is_none() && premises.len() - i >= 2 {
        if let Some((build_vars, probe, probe_vars, keys)) = try_plan_hash_join(
            ir,
            s,
            &args,
            premises[i + 1],
            &bound,
        ) {
            let mut inner = bound;
            add_vars(&mut inner, &build_vars);
            add_vars(&mut inner, &probe_vars);
            return match plan_join_sequence(ir, fresh, s, premises, i + 2, inner, lets, tail) {
                Err(e) => Err(e),
                Ok((body, vars)) => Ok(
                    (
                        Op::HashJoin {
                            build_source: DataSource::Scan { relation: predicate, vars: build_vars },
                            probe_source: DataSource::Scan { relation: probe, vars: probe_vars },
                            join_keys: keys,
                            body: Box::new(body),
                        },
                        vars,
                    ),
                ),
            };
        }
    }
    let key = find_key(ir, &args, &bound);
    let vars = plan_scan_vars(ir, fresh, &args, &bound);
    let mut inner = bound;
    add_vars(&mut inner, &vars);
    match plan_join_sequence(ir, fresh, s, premises, i + 1, inner, lets, tail) {
        Err(e) => Err(e),
        Ok((body, last)) => match apply_constraints(ir, fresh, &args, &vars, body) {
            Err(e) => Err(e),
            Ok(c) => {
                let here = match s.at {
                    Some(k) => k == i,
                    None => true,
                };
                let is_delta = match s.delta {
                    Some(d) => d == predicate && here,
                    None => false,
                };
                let source = match key {
                    Some((col_idx, key)) => DataSource::IndexLookup {
                        relation: predicate,
                        col_idx,
                        key,
                        vars,
                    },
                    None => if is_delta {
                        DataSource::ScanDelta { relation: predicate, vars }
                    } else {
                        DataSource::Scan { relation: predicate, vars }
                    },
                };
                Ok((Op::Iterate { source, body: Box::new(c) }, last))
            },
        },
    }
}

/// Transforms are split in blocks: one that binds no variable begins a new block.
pub open spec fn split(g: Graph, transforms: Seq<InstId>, n: nat) -> Seq<Seq<InstId>>
    decreases n,
{
    if n == 0 {
        seq![Seq::empty()]
    } else {
        let blocks = split(g, transforms, (n - 1) as nat);
        let t = transforms[n - 1];
        match g.node(t) {
            Node::Transform { var: None, .. } => blocks.push(seq![t]),
            _ => blocks.update(blocks.len() - 1, blocks.last().push(t)),
        }
    }
}

/// The views of blocks.
pub open spec fn blocks_of(v: Seq<Vec<InstId>>) -> Seq<Seq<InstId>> {
    Seq::new(v.len(), |i: int| v[i]@)
}

/// Every block holds instructions of the graph, and every block but the first holds one.
pub open spec fn blocks_in(blocks: Seq<Seq<InstId>>, g: Graph) -> bool {
    &&& blocks.len() > 0
    &&& forall|i: int| 0 <= i < blocks.len() ==> ids_below(#[trigger] blocks[i], g.nodes.len())
    &&& forall|i: int| 1 <= i < blocks.len() ==> (#[trigger] blocks[i]).len() > 0
}

/// Splits transforms in blocks.
fn split_transforms(ir: &Ir, transforms: &Vec<InstId>) -> (r: Vec<Vec<InstId>>)
    requires
        ids_below(transforms@, ir@.nodes.len()),
    ensures
        blocks_of(r@) == split(ir@, transforms@, transforms@.len()),
        blocks_in(blocks_of(r@), ir@),
{
    let mut done: Vec<Vec<InstId>> = Vec::new();
    let mut current: Vec<InstId> = Vec::new();
    let mut n: usize = 0;
    assert(blocks_of(done@).push(current@) =~= seq![Seq::<InstId>::empty()]);
    while n < transforms.len()
        invariant
            n <= transforms@.len(),
            blocks_of(done@).push(current@) == split(ir@, transforms@, n as nat),
            forall|i: int| 0 <= i < done@.len() ==> ids_below((#[trigger] done@[i])@, ir@.nodes.len()),
            forall|i: int| 1 <= i < done@.len() ==> (#[trigger] done@[i])@.len() > 0,
            done@.len() > 0 ==> current@.len() > 0,
            ids_below(current@, ir@.nodes.len()),
        decreases transforms@.len() - n,
    {
        let t = transforms[n];
        let ghost before = blocks_of(done@);
        let ghost was = current@;
        let starts = match ir.get(t) {
            Inst::Transform { var, .. } => var.is_none(),
            _ => false,
        };
        if starts {
            done.push(current);
            current = Vec::new();
            current.push(t);
            assert(blocks_of(done@) =~= before.push(was));
            assert(current@ =~= seq![t]);
        } else {
            current.push(t);
            assert(blocks_of(done@).push(current@) =~= before.push(was).update(
                before.len() as int,
                was.push(t),
            ));
        }
        n += 1;
    }
    let ghost before = blocks_of(done@);
    let ghost last = current@;
    done.push(current);
    assert(blocks_of(done@) =~= before.push(last));
    done
}

/// The arguments of the call of a transform.
pub open spec fn transform_args(g: Graph, t: InstId) -> Option<Seq<InstId>> {
    match g.node(t) {
        Node::Transform { app, .. } => match g.node(app) {
            Node::ApplyFn { args, .. } => Some(args),
            _ => None,
        },
        _ => None,
    }
}

/// The arguments of the call of a transform.
fn get_transform_app_args(ir: &Ir, t: InstId) -> (r: Option<Vec<InstId>>)
    requires
        ir@.wf(),
        ir@.has(t),
    ensures
        match transform_args(ir@, t) {
            Some(args) => r matches Some(v) && v@ == args && ids_below(args, ir@.nodes.len()),
            None => r is None,
        },
{
    if let Inst::Transform { app, .. } = ir.get(t) {
        if let Inst::ApplyFn { args, .. } = ir.get(*app) {
            return Some(copy_ids(args.as_slice()));
        }
    }
    None
}

/// Functions that aggregate.
pub open spec fn is_aggregate(f: Seq<char>) -> bool {
    ||| f == "fn:sum"@
    ||| f == "fn:count"@
    ||| f == "fn:max"@
    ||| f == "fn:min"@
    ||| f == "fn:collect"@
    ||| f == "fn:float:sum"@
    ||| f == "fn:float:max"@
    ||| f == "fn:float:min"@
}

fn is_aggregate_name(f: &str) -> (r: bool)
    ensures
        r == is_aggregate(f@),
{
    str_eq(f, "fn:sum") || str_eq(f, "fn:count") || str_eq(f, "fn:max") || str_eq(f, "fn:min")
        || str_eq(f, "fn:collect") || str_eq(f, "fn:float:sum") || str_eq(f, "fn:float:max") || str_eq(
        f,
        "fn:float:min",
    )
}

/// The operand that an argument of an aggregate is: a variable or a number.
pub open spec fn fold_operand(n: Node) -> Option<Operand> {
    match n {
        Node::Var(v) => Some(Operand::Var(v)),
        Node::Number(n) => Some(Operand::Const(Constant::Number(n))),
        Node::Float(b) => Some(Operand::Const(Constant::Float(b))),
        _ => None,
    }
}

/// The operands of the first `n` arguments of an aggregate.
pub open spec fn fold_operands(g: Graph, args: Seq<InstId>, n: nat) -> Option<Seq<Operand>>
    decreases n,
{
    if n == 0 {
        Some(Seq::empty())
    } else {
        match (fold_operands(g, args, (n - 1) as nat), fold_operand(g.node(args[n - 1]))) {
            (Some(ops), Some(o)) => Some(ops.push(o)),
            _ => None,
        }
    }
}

proof fn lemma_fold_fail(g: Graph, args: Seq<InstId>, k: nat, n: nat)
    requires
        k <= n,
        fold_operands(g, args, k) is None,
    ensures
        fold_operands(g, args, n) is None,
    decreases n,
{
    if k < n {
        lemma_fold_fail(g, args, k, (n - 1) as nat);
    }
}

/// The aggregate that a transform is, if it is one.
pub open spec fn aggregate_of(g: Graph, t: InstId) -> Result<Option<Fold>, PlanError> {
    match g.node(t) {
        Node::Transform { var: Some(var), app } => match g.node(app) {
            Node::ApplyFn { function, args } => if is_aggregate(g.name(function)) {
                match fold_operands(g, args, args.len()) {
                    Some(ops) => Ok(Some(Fold { var, func: function, args: ops })),
                    None => Err(PlanError::AggregateTerm),
                }
            } else {
                Ok(None)
            },
            _ => Ok(None),
        },
        _ => Ok(None),
    }
}

/// The aggregate that a transform is, if it is one.
fn try_parse_aggregate(ir: &Ir, t: InstId) -> (r: Result<Option<Aggregate>, PlanError>)
    requires
        ir@.wf(),
        ir@.has(t),
    ensures
        match aggregate_of(ir@, t) {
            Ok(Some(f)) => r matches Ok(Some(a)) && a@ == f && fold_known(f, ir@),
            Ok(None) => r matches Ok(None),
            Err(e) => r == Err::<Option<Aggregate>, PlanError>(e),
        },
{
    let (var, app) = match ir.get(t) {
        Inst::Transform { var, app } => match var {
            Some(v) => (*v, *app),
            None => return Ok(None),
        },
        _ => return Ok(None),
    };
    let (function, args) = match ir.get(app) {
        Inst::ApplyFn { function, args } => (*function, args),
        _ => return Ok(None),
    };
    if !is_aggregate_name(ir.resolve_name(function)) {
        return Ok(None);
    }
    let mut ops: Vec<Operand> = Vec::new();
    let mut n: usize = 0;
    assert(ops@ =~= Seq::<Operand>::empty());
    while n < args.len()
        invariant
            n <= args@.len(),
            fold_operands(ir@, args@, n as nat) == Some(ops@),
            operands_known(ops@, ir@),
        decreases args@.len() - n,
    {
        let o = match ir.get(args[n]) {
            Inst::Var(v) => Some(Operand::Var(*v)),
            Inst::Number(k) => Some(Operand::Const(Constant::Number(*k))),
            Inst::Float(b) => Some(Operand::Const(Constant::Float(*b))),
            _ => None,
        };
        match o {
            Some(o) => {
                ops.push(o);
            },
            None => {
                proof {
                    lemma_fold_fail(ir@, args@, (n + 1) as nat, args@.len());
                }
                return Err(PlanError::AggregateTerm);
            },
        }
        n += 1;
    }
    Ok(Some(Aggregate { var, func: function, args: ops }))
}

/// The variables that the first `n` terms are, if all are variables.
pub open spec fn key_vars(g: Graph, ids: Seq<InstId>, n: nat) -> Option<Seq<NameId>>
    decreases n,
{
    if n == 0 {
        Some(Seq::empty())
    } else {
        match (key_vars(g, ids, (n - 1) as nat), g.node(ids[n - 1])) {
            (Some(vs), Node::Var(v)) => Some(vs.push(v)),
            _ => None,
        }
    }
}

proof fn lemma_key_vars_fail(g: Graph, ids: Seq<InstId>, k: nat, n: nat)
    requires
        k <= n,
        key_vars(g, ids, k) is None,
    ensures
        key_vars(g, ids, n) is None,
    decreases n,
{
    if k < n {
        lemma_key_vars_fail(g, ids, k, (n - 1) as nat);
    }
}

/// The aggregates and the other transforms among those of a block from the second on up to
/// the `n`-th.
pub open spec fn block_parts(g: Graph, block: Seq<InstId>, n: nat) -> Result<(Seq<Fold>, Seq<InstId>), PlanError>
    decreases n,
{
    if n <= 1 {
        Ok((Seq::empty(), Seq::empty()))
    } else {
        match block_parts(g, block, (n - 1) as nat) {
            Err(e) => Err(e),
            Ok((folds, lets)) => match aggregate_of(g, block[n - 1]) {
                Err(e) => Err(e),
                Ok(Some(f)) => Ok((folds.push(f), lets)),
                Ok(None) => Ok((folds, lets.push(block[n - 1]))),
            },
        }
    }
}

proof fn lemma_block_parts_fail(g: Graph, block: Seq<InstId>, k: nat, n: nat)
    requires
        k <= n,
        block_parts(g, block, k) is Err,
    ensures
        block_parts(g, block, n) == block_parts(g, block, k),
    decreases n,
{
    if k < n {
        lemma_block_parts_fail(g, block, k, (n - 1) as nat);
    }
}

/// The variables of aggregates.
pub open spec fn fold_vars(folds: Seq<Fold>) -> Seq<NameId> {
    Seq::new(folds.len(), |i: int| folds[i].var)
}

/// The plan of a block that aggregates the rows of a temporary relation.
pub open spec fn block_planned(
    p: PlanState,
    source: NameId,
    source_vars: Seq<NameId>,
    block: Seq<InstId>,
    tail: Tail,
) -> (PlanState, Planned) {
    match transform_args(p.g, block[0]) {
        None => (p, Err(PlanError::InvalidTransform)),
        Some(ids) => match key_vars(p.g, ids, ids.len()) {
            None => (p, Err(PlanError::GroupKey)),
            Some(keys) => match block_parts(p.g, block, block.len()) {
                Err(e) => (p, Err(e)),
                Ok((aggregates, lets)) => {
                    let bound = with_vars(
                        with_vars(Seq::empty(), keys, keys.len()),
                        fold_vars(aggregates),
                        aggregates.len(),
                    );
                    let (q, body) = lets_planned(p, lets, 0, bound, tail);
                    match body {
                        Err(e) => (q, Err(e)),
                        Ok((b, vars)) => (
                            q,
                            Ok(
                                (
                                    Plan::GroupBy {
                                        source,
                                        vars: source_vars,
                                        keys,
                                        aggregates,
                                        body: Box::new(b),
                                    },
                                    vars,
                                ),
                            ),
                        ),
                    }
                },
            },
        },
    }
}

/// Plans a block that aggregates the rows of a temporary relation.
#[verifier::rlimit(40)]
fn plan_block_k(
    ir: &mut Ir,
    fresh: &mut usize,
    source: NameId,
    source_vars: Vec<NameId>,
    block: &Vec<InstId>,
    tail: Tail,
) -> (r: Result<(Op, Vec<NameId>), PlanError>)
    requires
        old(ir)@.wf(),
        block@.len() > 0,
        ids_below(block@, old(ir)@.nodes.len()),
        tail_in(tail, old(ir)@),
        old(ir)@.has_name(source),
    ensures
        final(ir)@.wf(),
        old(ir)@.extended_by(final(ir)@),
        r matches Ok((op, _)) ==> known(op@, final(ir)@),
        (PlanState { g: final(ir)@, fresh: *final(fresh) }, planned_of(r)) == block_planned(
            PlanState { g: old(ir)@, fresh: *old(fresh) },
            source,
            source_vars@,
            block@,
            tail,
        ),
{
    let ghost g = ir@;
    let ids = match get_transform_app_args(ir, block[0]) {
        Some(ids) => ids,
        None => return Err(PlanError::InvalidTransform),
    };
    let mut keys: Vec<NameId> = Vec::new();
    let mut n: usize = 0;
    assert(keys@ =~= Seq::<NameId>::empty());
    while n < ids.len()
        invariant
            ir@ == g,
            n <= ids@.len(),
            key_vars(g, ids@, n as nat) == Some(keys@),
        decreases ids@.len() - n,
    {
        let key = match ir.get(ids[n]) {
            Inst::Var(v) => Some(*v),
            _ => None,
        };
        match key {
            Some(v) => {
                keys.push(v);
            },
            None => {
                proof {
                    lemma_key_vars_fail(g, ids@, (n + 1) as nat, ids@.len());
                }
                return Err(PlanError::GroupKey);
            },
        }
        n += 1;
    }
    let mut aggregates: Vec<Aggregate> = Vec::new();
    let mut lets: Vec<InstId> = Vec::new();
    let mut agg_vars: Vec<NameId> = Vec::new();
    let mut k: usize = 1;
    assert(folds(aggregates@) =~= Seq::<Fold>::empty());
    assert(lets@ =~= Seq::<InstId>::empty());
    assert(agg_vars@ =~= fold_vars(folds(aggregates@)));
    while k < block.len()
        invariant
            ir@ == g,
            1 <= k <= block@.len(),
            block_parts(g, block@, k as nat) == Ok::<(Seq<Fold>, Seq<InstId>), PlanError>(
                (folds(aggregates@), lets@),
            ),
            agg_vars@ == fold_vars(folds(aggregates@)),
            ids_below(lets@, g.nodes.len()),
            forall|i: int| 0 <= i < aggregates@.len() ==> fold_known((#[trigger] aggregates@[i])@, g),
        decreases block@.len() - k,
    {
        let ghost so_far = folds(aggregates@);
        match try_parse_aggregate(ir, block[k]) {
            Err(e) => {
                proof {
                    lemma_block_parts_fail(g, block@, (k + 1) as nat, block@.len());
                }
                return Err(e);
            },
            Ok(Some(a)) => {
                agg_vars.push(a.var);
                let ghost f = a@;
                aggregates.push(a);
                assert(folds(aggregates@) =~= so_far.push(f));
                assert(agg_vars@ =~= fold_vars(folds(aggregates@)));
            },
            Ok(None) => {
                lets.push(block[k]);
            },
        }
        k += 1;
    }
    let mut bound: Vec<NameId> = Vec::new();
    assert(bound@ =~= Seq::<NameId>::empty());
    add_vars(&mut bound, &keys);
    add_vars(&mut bound, &agg_vars);
    match plan_transforms_sequence(ir, fresh, &lets, 0, bound, tail) {
        Err(e) => Err(e),
        Ok((body, vars)) => Ok(
            (
                Op::GroupBy {
                    source,
                    vars: source_vars,
                    keys,
                    aggregates,
                    body: Box::new(body),
                },
                vars,
            ),
        ),
    }
}

/// The plans of the blocks from the `k`-th on, after the plans `so_far`.
pub open spec fn blocks_planned(
    p: PlanState,
    blocks: Seq<Seq<InstId>>,
    k: int,
    source: NameId,
    source_vars: Seq<NameId>,
    head: InstId,
    so_far: Seq<Plan>,
) -> (PlanState, Result<Seq<Plan>, PlanError>)
    decreases blocks.len() - k,
{
    if k < 0 || k >= blocks.len() {
        (p, Ok(so_far))
    } else if k == blocks.len() - 1 {
        let (q, r) = block_planned(p, source, source_vars, blocks[k], Tail::Head(head));
        match r {
            Err(e) => (q, Err(e)),
            Ok((plan, _)) => (q, Ok(so_far.push(plan))),
        }
    } else {
        let (q, temp) = with_temp(p, "temp_grp"@);
        let (s, r) = block_planned(q, source, source_vars, blocks[k], Tail::Store(temp));
        match r {
            Err(e) => (s, Err(e)),
            Ok((plan, vars)) => blocks_planned(s, blocks, k + 1, temp, vars, head, so_far.push(plan)),
        }
    }
}

/// The plan of a rule.
pub open spec fn rule_planned(s: Settings, p: PlanState, rule: InstId) -> (PlanState, Result<Plan, PlanError>) {
    match p.g.node(rule) {
        Node::Rule { head, premises, transform } => {
            let blocks = split(p.g, transform, transform.len());
            if blocks.len() == 1 {
                let (q, r) = premises_planned(
                    s,
                    p,
                    premises,
                    0,
                    Seq::empty(),
                    blocks[0],
                    Tail::Head(head),
                );
                match r {
                    Err(e) => (q, Err(e)),
                    Ok((plan, _)) => (q, Ok(plan)),
                }
            } else {
                let (q, temp) = with_temp(p, "temp_grp"@);
                let (t, r) = premises_planned(
                    s,
                    q,
                    premises,
                    0,
                    Seq::empty(),
                    blocks[0],
                    Tail::Store(temp),
                );
                match r {
                    Err(e) => (t, Err(e)),
                    Ok((plan, vars)) => {
                        let (u, all) = blocks_planned(t, blocks, 1, temp, vars, head, seq![plan]);
                        match all {
                            Err(e) => (u, Err(e)),
                            Ok(plans) => (u, Ok(Plan::Sequence(plans))),
                        }
                    },
                }
            }
        },
        _ => (p, Err(PlanError::NotARule)),
    }
}

/// One more plan of known names.
proof fn lemma_push_known(ps: Seq<Plan>, p: Plan, n: Graph, more: Graph)
    requires
        all_known(ps, ps.len(), n),
        n.extended_by(more),
        known(p, more),
    ensures
        all_known(ps.push(p), (ps.len() + 1) as nat, more),
{
    lemma_all_known_grows(ps, ps.len(), n, more);
    lemma_all_known_prefix(ps, p, ps.len(), more);
}

/// Plans a rule.
#[verifier::rlimit(60)]
fn plan_rule_from(ir: &mut Ir, fresh: &mut usize, s: Settings, rule: InstId) -> (r: Result<Op, PlanError>)
    requires
        old(ir)@.wf(),
        old(ir)@.has(rule),
    ensures
        final(ir)@.wf(),
        old(ir)@.extended_by(final(ir)@),
        r matches Ok(op) ==> known(op@, final(ir)@),
        (PlanState { g: final(ir)@, fresh: *final(fresh) }, op_of(r)) == rule_planned(
            s,
            PlanState { g: old(ir)@, fresh: *old(fresh) },
            rule,
        ),
{
    let ghost g = ir@;
    proof {
        assert(g.nodes[rule.0 as int].fits(rule.0 as nat, g.names.len(), g.strings.len()));
    }
    let (head, premises, transform) = match ir.copy_inst(rule) {
        Inst::Rule { head, premises, transform } => (head, premises, transform),
        _ => return Err(PlanError::NotARule),
    };
    let blocks = split_transforms(ir, &transform);
    let none: Vec<NameId> = Vec::new();
    assert(none@ =~= Seq::<NameId>::empty());
    assert(blocks_of(blocks@)[0] == blocks@[0]@);
    if blocks.len() == 1 {
        return match plan_join_sequence(
            ir,
            fresh,
            s,
            &premises,
            0,
            none,
            &blocks[0],
            Tail::Head(head),
        ) {
            Err(e) => Err(e),
            Ok((op, _vars)) => Ok(op),
        };
    }
    let temp = fresh_var(ir, fresh, "temp_grp");
    match plan_join_sequence(ir, fresh, s, &premises, 0, none, &blocks[0], Tail::Store(temp)) {
        Err(e) => Err(e),
        Ok((first, first_vars)) => {
            let ghost start = PlanState { g: ir@, fresh: *fresh };
            let ghost source0 = temp;
            let ghost vars0 = first_vars@;
            let ghost plan0 = first@;
            let mut ops: Vec<Op> = Vec::new();
            ops.push(first);
            assert(plans(ops@) =~= seq![plan0]);
            assert(all_known(seq![plan0], 1, ir@)) by {
                lemma_push_known(Seq::empty(), plan0, ir@, ir@);
                assert(Seq::<Plan>::empty().push(plan0) =~= seq![plan0]);
            }
            let mut source = temp;
            let mut vars = first_vars;
            let mut k: usize = 1;
            while k < blocks.len()
                invariant
                    ir@.wf(),
                    g.extended_by(ir@),
                    1 <= k <= blocks@.len(),
                    ir@.has_name(source),
                    all_known(plans(ops@), ops@.len(), ir@),
                    blocks_planned(
                        start,
                        blocks_of(blocks@),
                        1,
                        source0,
                        vars0,
                        head,
                        seq![plan0],
                    ) == blocks_planned(
                        PlanState { g: ir@, fresh: *fresh },
                        blocks_of(blocks@),
                        k as int,
                        source,
                        vars@,
                        head,
                        plans(ops@),
                    ),
                decreases blocks@.len() - k,
            {
                let ghost so_far = plans(ops@);
                let ghost n = ir@;
                assert(blocks_of(blocks@)[k as int] == blocks@[k as int]@);
                assert(g.nodes.len() <= ir@.nodes.len());
                if k == blocks.len() - 1 {
                    match plan_block_k(ir, fresh, source, vars, &blocks[k], Tail::Head(head)) {
                        Err(e) => {
                            return Err(e);
                        },
                        Ok((op, _v)) => {
                            let ghost made = op@;
                            ops.push(op);
                            assert(plans(ops@) =~= so_far.push(made));
                            proof {
                                lemma_push_known(so_far, made, n, ir@);
                            }
                            return Ok(Op::Sequence(ops));
                        },
                    }
                }
                let next = fresh_var(ir, fresh, "temp_grp");
                match plan_block_k(ir, fresh, source, vars, &blocks[k], Tail::Store(next)) {
                    Err(e) => {
                        return Err(e);
                    },
                    Ok((op, v)) => {
                        let ghost made = op@;
                        ops.push(op);
                        assert(plans(ops@) =~= so_far.push(made));
                        proof {
                            lemma_push_known(so_far, made, n, ir@);
                        }
                        source = next;
                        vars = v;
                    },
                }
                k += 1;
            }
            Ok(Op::Sequence(ops))
        },
    }
}

/// The lower case of an ASCII letter.
pub open spec fn lower_case(c: char) -> char {
    if 'A' <= c && c <= 'Z' {
        (c as u32 + 32) as char
    } else {
        c
    }
}

/// Whether a setting of the environment turns hash joins on: `1`, or `true` in any case.
pub open spec fn turns_on(value: Seq<char>) -> bool {
    value == "1"@ || (value.len() == 4 && value.map_values(|c: char| lower_case(c)) == "true"@)
}

/// Whether hash joins are on, given the value of `MANGLE_HASHJOIN` if it is set.
pub fn hash_join_default(value: Option<&str>) -> (r: bool)
    ensures
        r == (value matches Some(v) && turns_on(v@)),
{
    match value {
        None => false,
        Some(v) => {
            if str_eq(v, "1") {
                return true;
            }
            if v.unicode_len() != 4 {
                return false;
            }
            let ghost low = v@.map_values(|c: char| lower_case(c));
            proof {
                reveal_strlit("true");
            }
            let a = v.get_char(0);
            let b = v.get_char(1);
            let c = v.get_char(2);
            let d = v.get_char(3);
            let r = (a == 't' || a == 'T') && (b == 'r' || b == 'R') && (c == 'u' || c == 'U') && (d
                == 'e' || d == 'E');
            proof {
                assert(low[0] == lower_case(a) && low[1] == lower_case(b) && low[2] == lower_case(c)
                    && low[3] == lower_case(d));
                assert("true"@ =~= seq!['t', 'r', 'u', 'e']);
                if low == "true"@ {
                    assert(low[0] == 't' && low[1] == 'r' && low[2] == 'u' && low[3] == 'e');
                }
                if r {
                    assert(low =~= seq!['t', 'r', 'u', 'e']);
                }
            }
            r
        },
    }
}

/// A planner of rules.
pub struct Planner<'a> {
    pub ir: &'a mut Ir,
    pub settings: Settings,
}

impl<'a> Planner<'a> {
    /// A planner that plans no hash joins and reads all rows of every relation.
    pub fn new(ir: &'a mut Ir) -> (r: Planner<'a>)
        ensures
            *r.ir == *old(ir),
            *final(ir) == *final(r.ir),
            r.settings == (Settings { delta: None, at: None, hash_join: false }),
    {
        Planner { ir, settings: Settings { delta: None, at: None, hash_join: false } }
    }

    /// Of the relation `delta_pred` only new rows are read, unless by an index lookup.
    pub fn with_delta(self, delta_pred: NameId) -> (r: Planner<'a>)
        ensures
            *r.ir == *old(self.ir),
            *final(r.ir) == *final(self.ir),
            r.settings == (Settings { delta: Some(delta_pred), at: None, ..self.settings }),
    {
        Planner {
            ir: self.ir,
            settings: Settings { delta: Some(delta_pred), at: None, ..self.settings },
        }
    }

    /// At the premise with this place only new rows of its relation `delta_pred` are read,
    /// unless by an index lookup.
    pub fn with_delta_at(self, delta_pred: NameId, place: usize) -> (r: Planner<'a>)
        ensures
            *r.ir == *old(self.ir),
            *final(r.ir) == *final(self.ir),
            r.settings == (Settings { delta: Some(delta_pred), at: Some(place), ..self.settings }),
    {
        Planner {
            ir: self.ir,
            settings: Settings { delta: Some(delta_pred), at: Some(place), ..self.settings },
        }
    }

    /// Turns hash joins on or off.
    pub fn with_hash_join(self, enabled: bool) -> (r: Planner<'a>)
        ensures
            *r.ir == *old(self.ir),
            *final(r.ir) == *final(self.ir),
            r.settings == (Settings { hash_join: enabled, ..self.settings }),
    {
        Planner { ir: self.ir, settings: Settings { hash_join: enabled, ..self.settings } }
    }

    /// Plans a rule.
    pub fn plan_rule(self, rule_id: InstId) -> (r: Result<Op, PlanError>)
        requires
            (*old(self.ir))@.wf(),
            (*old(self.ir))@.has(rule_id),
        ensures
            (*final(self.ir))@.wf(),
            (*old(self.ir))@.extended_by((*final(self.ir))@),
            r matches Ok(op) ==> known(op@, (*final(self.ir))@),
            ({
                let (p, plan) = rule_planned(
                    self.settings,
                    PlanState { g: (*old(self.ir))@, fresh: 0 },
                    rule_id,
                );
                &&& p.g == (*final(self.ir))@
                &&& op_of(r) == plan
            }),
    {
        let mut fresh: usize = 0;
        plan_rule_from(self.ir, &mut fresh, self.settings, rule_id)
    }
}

} // verus!
