//! Predicates of a program that sources of base facts may use.
//!
//! A plan reads a relation in scans, index lookups and negations. A comparison of a column with
//! a constant may be left to the source only if every read of the relation makes it: rows for
//! which it does not hold are then of no use to the program.
use vstd::prelude::*;

use crate::ir::{Graph, Ir, NameId};
use crate::physical::{plan_of, plans, Plan, Source, Test};
use crate::physical::{CompareOp, Condition, Constant, DataSource, Op, Operand};
use crate::schedule::texts;
use crate::source::{all_hold, pred_holds, preds, Pred};
use crate::source::{ColumnPredicate, PredicateOp};
use crate::text::str_eq;
use crate::value::{copy_value, value_eq, Val, Value};

verus! {

/// The comparison with its operands swapped.
pub open spec fn flipped(op: CompareOp) -> CompareOp {
    match op {
        CompareOp::Eq => CompareOp::Eq,
        CompareOp::Neq => CompareOp::Neq,
        CompareOp::Lt => CompareOp::Gt,
        CompareOp::Le => CompareOp::Ge,
        CompareOp::Gt => CompareOp::Lt,
        CompareOp::Ge => CompareOp::Le,
    }
}

fn flip(op: CompareOp) -> (r: CompareOp)
    ensures
        r == flipped(op),
{
    match op {
        CompareOp::Eq => CompareOp::Eq,
        CompareOp::Neq => CompareOp::Neq,
        CompareOp::Lt => CompareOp::Gt,
        CompareOp::Le => CompareOp::Ge,
        CompareOp::Gt => CompareOp::Lt,
        CompareOp::Ge => CompareOp::Le,
    }
}

/// The comparison of a predicate.
pub open spec fn pred_op(op: CompareOp) -> PredicateOp {
    match op {
        CompareOp::Eq => PredicateOp::Eq,
        CompareOp::Neq => PredicateOp::Neq,
        CompareOp::Lt => PredicateOp::Lt,
        CompareOp::Le => PredicateOp::Le,
        CompareOp::Gt => PredicateOp::Gt,
        CompareOp::Ge => PredicateOp::Ge,
    }
}

fn to_pred_op(op: CompareOp) -> (r: PredicateOp)
    ensures
        r == pred_op(op),
{
    match op {
        CompareOp::Eq => PredicateOp::Eq,
        CompareOp::Neq => PredicateOp::Neq,
        CompareOp::Lt => PredicateOp::Lt,
        CompareOp::Le => PredicateOp::Le,
        CompareOp::Gt => PredicateOp::Gt,
        CompareOp::Ge => PredicateOp::Ge,
    }
}

/// The value of a constant; none where its text is not known.
pub open spec fn constant_value(g: Graph, c: Constant) -> Option<Val> {
    match c {
        Constant::Number(n) => Some(Val::Number(n)),
        Constant::Float(b) => Some(Val::Float(b)),
        Constant::String(s) => if s.0 < g.strings.len() {
            Some(Val::String(g.string(s)))
        } else {
            None
        },
        Constant::Name(n) => if g.has_name(n) {
            Some(Val::Name(g.name(n)))
        } else {
            None
        },
        Constant::Time(t) => Some(Val::Time(t)),
        Constant::Duration(d) => Some(Val::Duration(d)),
    }
}

/// The value of an operand, if it is a constant.
pub open spec fn operand_value(g: Graph, o: Operand) -> Option<Val> {
    match o {
        Operand::Const(c) => constant_value(g, c),
        Operand::Var(_) => None,
    }
}

/// The model of an optional value.
pub open spec fn opt_val(v: Option<Value>) -> Option<Val> {
    match v {
        Some(v) => Some(v@),
        None => None,
    }
}

fn operand_to_value(ir: &Ir, o: &Operand) -> (r: Option<Value>)
    ensures
        opt_val(r) == operand_value(ir@, *o),
{
    match o {
        Operand::Var(_) => None,
        Operand::Const(c) => match c {
            Constant::Number(n) => Some(Value::Number(*n)),
            Constant::Float(b) => Some(Value::Float(*b)),
            Constant::String(s) => if s.0 < ir.num_strings() {
                Some(Value::String(ir.resolve_string(*s).to_owned()))
            } else {
                None
            },
            Constant::Name(n) => if n.0 < ir.num_names() {
                Some(Value::Name(ir.resolve_name(*n).to_owned()))
            } else {
                None
            },
            Constant::Time(t) => Some(Value::Time(*t)),
            Constant::Duration(d) => Some(Value::Duration(*d)),
        },
    }
}

/// The last column below `n` that goes to a variable.
pub open spec fn column_of(vars: Seq<NameId>, v: NameId, n: nat) -> Option<usize>
    decreases n,
{
    if n == 0 {
        None
    } else if vars[n - 1] == v {
        Some((n - 1) as usize)
    } else {
        column_of(vars, v, (n - 1) as nat)
    }
}

fn find_column(vars: &Vec<NameId>, v: NameId) -> (r: Option<usize>)
    ensures
        r == column_of(vars@, v, vars@.len()),
{
    let mut n: usize = vars.len();
    while n > 0
        invariant
            n <= vars@.len(),
            column_of(vars@, v, vars@.len()) == column_of(vars@, v, n as nat),
        decreases n,
    {
        if vars[n - 1] == v {
            return Some(n - 1);
        }
        n -= 1;
    }
    None
}

/// The predicate that compares a column of a scan with a constant.
pub open spec fn column_pred(g: Graph, op: CompareOp, left: Operand, right: Operand, vars: Seq<NameId>) -> Option<Pred> {
    match left {
        Operand::Var(v) => match (column_of(vars, v, vars.len()), operand_value(g, right)) {
            (Some(col), Some(value)) => Some(Pred { col, op: pred_op(op), value }),
            _ => None,
        },
        _ => None,
    }
}

/// The predicate that a condition on the variables of a scan is: a comparison of a column with
/// a constant, on either side.
pub open spec fn cond_pred(g: Graph, cond: Test, vars: Seq<NameId>) -> Option<Pred> {
    match cond {
        Test::Compare { op, left, right } => match column_pred(g, op, left, right, vars) {
            Some(p) => Some(p),
            None => column_pred(g, flipped(op), right, left, vars),
        },
        _ => None,
    }
}

/// The model of an optional predicate.
pub open spec fn opt_pred(p: Option<ColumnPredicate>) -> Option<Pred> {
    match p {
        Some(p) => Some(p@),
        None => None,
    }
}

fn try_var_const(ir: &Ir, op: CompareOp, left: &Operand, right: &Operand, vars: &Vec<NameId>) -> (r: Option<
    ColumnPredicate,
>)
    ensures
        opt_pred(r) == column_pred(ir@, op, *left, *right, vars@),
{
    let v = match left {
        Operand::Var(v) => *v,
        _ => return None,
    };
    match find_column(vars, v) {
        None => None,
        Some(col) => match operand_to_value(ir, right) {
            Some(value) => Some(ColumnPredicate::new(col, to_pred_op(op), value)),
            None => None,
        },
    }
}

fn condition_to_predicate(ir: &Ir, cond: &Condition, vars: &Vec<NameId>) -> (r: Option<ColumnPredicate>)
    ensures
        opt_pred(r) == cond_pred(ir@, cond@, vars@),
{
    match cond {
        Condition::Compare { op, left, right } => match try_var_const(ir, *op, left, right, vars) {
            Some(p) => Some(p),
            None => try_var_const(ir, flip(*op), right, left, vars),
        },
        _ => None,
    }
}

/// The predicates of the filters right below a scan.
pub open spec fn filter_preds(g: Graph, p: Plan, vars: Seq<NameId>) -> Seq<Pred>
    decreases p,
{
    match p {
        Plan::Filter { cond, body } => {
            let rest = filter_preds(g, *body, vars);
            match cond_pred(g, cond, vars) {
                Some(c) => seq![c] + rest,
                None => rest,
            }
        },
        _ => Seq::empty(),
    }
}

/// Whether a name is that of the relation.
pub open spec fn is_relation(g: Graph, n: NameId, rel: Seq<char>) -> bool {
    g.has_name(n) && g.name(n) == rel
}

fn names_relation(ir: &Ir, n: NameId, rel: &str) -> (r: bool)
    ensures
        r == is_relation(ir@, n, rel@),
{
    n.0 < ir.num_names() && str_eq(ir.resolve_name(n), rel)
}

/// The predicates that the read of a source makes, if it reads the relation.
pub open spec fn source_read(g: Graph, s: Source, body: Plan, rel: Seq<char>) -> Option<Seq<Pred>> {
    match s {
        Source::Scan { relation, vars } => if is_relation(g, relation, rel) {
            Some(filter_preds(g, body, vars))
        } else {
            None
        },
        Source::ScanDelta { relation, .. } => if is_relation(g, relation, rel) {
            Some(Seq::empty())
        } else {
            None
        },
        Source::IndexLookup { relation, col_idx, key, .. } => if is_relation(g, relation, rel) {
            match operand_value(g, key) {
                Some(value) => Some(seq![Pred { col: col_idx, op: PredicateOp::Eq, value }]),
                None => Some(Seq::empty()),
            }
        } else {
            None
        },
    }
}

/// A read that makes no predicate, if it is one of the relation.
pub open spec fn plain_read(g: Graph, n: NameId, rel: Seq<char>) -> Seq<Seq<Pred>> {
    if is_relation(g, n, rel) {
        seq![Seq::empty()]
    } else {
        Seq::empty()
    }
}

/// The reads of a relation in a plan: of each, the predicates that it makes.
pub open spec fn reads(g: Graph, p: Plan, rel: Seq<char>) -> Seq<Seq<Pred>>
    decreases p, 0nat,
{
    match p {
        Plan::Nop => Seq::empty(),
        Plan::Sequence(ps) => all_reads(g, ps, ps.len(), rel),
        Plan::Iterate { source, body } => {
            let rest = reads(g, *body, rel);
            match source_read(g, source, *body, rel) {
                Some(made) => seq![made] + rest,
                None => rest,
            }
        },
        Plan::Filter { cond, body } => match cond {
            Test::Negation { relation, .. } => plain_read(g, relation, rel) + reads(g, *body, rel),
            _ => reads(g, *body, rel),
        },
        Plan::Insert { .. } => Seq::empty(),
        Plan::Let { body, .. } => reads(g, *body, rel),
        Plan::GroupBy { source, body, .. } => plain_read(g, source, rel) + reads(g, *body, rel),
        Plan::HashJoin { build_source, probe_source, body, .. } => plain_read(
            g,
            crate::physical::source_relation(build_source),
            rel,
        ) + plain_read(g, crate::physical::source_relation(probe_source), rel) + reads(g, *body, rel),
    }
}

/// The reads of a relation in the first `n` plans.
pub open spec fn all_reads(g: Graph, ps: Seq<Plan>, n: nat, rel: Seq<char>) -> Seq<Seq<Pred>>
    decreases ps, n,
{
    if n == 0 || n > ps.len() {
        Seq::empty()
    } else {
        all_reads(g, ps, (n - 1) as nat, rel) + reads(g, ps[n - 1], rel)
    }
}

/// Whether every read makes a predicate.
pub open spec fn made_by_all(reads: Seq<Seq<Pred>>, p: Pred) -> bool {
    forall|i: int| 0 <= i < reads.len() ==> (#[trigger] reads[i]).contains(p)
}

/// The predicates that every read makes, in the order of the first.
pub open spec fn shared(reads: Seq<Seq<Pred>>) -> Seq<Pred> {
    if reads.len() == 0 {
        Seq::empty()
    } else {
        reads[0].filter(|p: Pred| made_by_all(reads, p))
    }
}

/// The predicates of a relation that may be left to its source.
pub open spec fn pushed(g: Graph, ps: Seq<Plan>, rel: Seq<char>) -> Seq<Pred> {
    shared(all_reads(g, ps, ps.len(), rel))
}

/// The models of lists of predicates.
pub open spec fn pred_lists(v: Seq<Vec<ColumnPredicate>>) -> Seq<Seq<Pred>> {
    Seq::new(v.len(), |i: int| preds(v[i]@))
}

/// Appends the predicates of the filters right below a scan.
fn collect_filters(ir: &Ir, op: &Op, vars: &Vec<NameId>, out: &mut Vec<ColumnPredicate>)
    ensures
        preds(final(out)@) == preds(old(out)@) + filter_preds(ir@, op@, vars@),
    decreases op,
{
    let ghost before = preds(out@);
    match op {
        Op::Filter { cond, body } => {
            if let Some(p) = condition_to_predicate(ir, cond, vars) {
                let ghost made = p@;
                out.push(p);
                assert(preds(out@) =~= before.push(made));
            }
            collect_filters(ir, body, vars, out);
        },
        _ => {},
    }
    assert(preds(out@) =~= before + filter_preds(ir@, op@, vars@));
}

/// Appends a read.
fn push_read(out: &mut Vec<Vec<ColumnPredicate>>, made: Vec<ColumnPredicate>)
    ensures
        pred_lists(final(out)@) == pred_lists(old(out)@).push(preds(made@)),
{
    let ghost before = pred_lists(out@);
    out.push(made);
    assert(pred_lists(out@) =~= before.push(preds(made@)));
}

/// Appends a read that makes no predicate, if it is one of the relation.
fn push_plain_read(ir: &Ir, n: NameId, rel: &str, out: &mut Vec<Vec<ColumnPredicate>>)
    ensures
        pred_lists(final(out)@) == pred_lists(old(out)@) + plain_read(ir@, n, rel@),
{
    let ghost before = pred_lists(out@);
    if names_relation(ir, n, rel) {
        let none: Vec<ColumnPredicate> = Vec::new();
        assert(preds(none@) =~= Seq::<Pred>::empty());
        push_read(out, none);
    }
    assert(pred_lists(out@) =~= before + plain_read(ir@, n, rel@));
}

/// Appends the read of a source, if it is one of the relation.
fn extract_from_iterate(ir: &Ir, source: &DataSource, body: &Op, rel: &str, out: &mut Vec<Vec<ColumnPredicate>>)
    ensures
        pred_lists(final(out)@) == match source_read(ir@, source@, body@, rel@) {
            Some(made) => pred_lists(old(out)@).push(made),
            None => pred_lists(old(out)@),
        },
{
    match source {
        DataSource::Scan { relation, vars } => {
            if names_relation(ir, *relation, rel) {
                let mut made: Vec<ColumnPredicate> = Vec::new();
                assert(preds(made@) =~= Seq::<Pred>::empty());
                collect_filters(ir, body, vars, &mut made);
                assert(preds(made@) =~= filter_preds(ir@, body@, vars@));
                push_read(out, made);
            }
        },
        DataSource::ScanDelta { relation, .. } => {
            if names_relation(ir, *relation, rel) {
                let none: Vec<ColumnPredicate> = Vec::new();
                assert(preds(none@) =~= Seq::<Pred>::empty());
                push_read(out, none);
            }
        },
        DataSource::IndexLookup { relation, col_idx, key, .. } => {
            if names_relation(ir, *relation, rel) {
                let mut made: Vec<ColumnPredicate> = Vec::new();
                assert(preds(made@) =~= Seq::<Pred>::empty());
                if let Some(value) = operand_to_value(ir, key) {
                    let ghost v = value@;
                    made.push(ColumnPredicate::new(*col_idx, PredicateOp::Eq, value));
                    assert(preds(made@) =~= seq![Pred { col: *col_idx, op: PredicateOp::Eq, value: v }]);
                }
                push_read(out, made);
            }
        },
    }
}

/// Appends the reads of a relation in a plan.
fn extract_from_op(ir: &Ir, op: &Op, rel: &str, out: &mut Vec<Vec<ColumnPredicate>>)
    ensures
        pred_lists(final(out)@) == pred_lists(old(out)@) + reads(ir@, op@, rel@),
    decreases op,
{
    let ghost before = pred_lists(out@);
    match op {
        Op::Nop => {},
        Op::Sequence(ops) => {
            let ghost ps = plans(ops@);
            let mut n: usize = 0;
            assert(pred_lists(out@) =~= before + all_reads(ir@, ps, 0, rel@));
            while n < ops.len()
                invariant
                    n <= ops@.len(),
                    pred_lists(out@) == before + all_reads(ir@, ps, n as nat, rel@),
                decreases ops@.len() - n,
            {
                assert(decreases_to!(ops => ops@));
                assert(decreases_to!(ops@ => ops@[n as int]));
                assert(ps[n as int] == plan_of(ops@[n as int]));
                extract_from_op(ir, &ops[n], rel, out);
                assert(pred_lists(out@) =~= before + all_reads(ir@, ps, (n + 1) as nat, rel@));
                n += 1;
            }
        },
        Op::Iterate { source, body } => {
            extract_from_iterate(ir, source, body, rel, out);
            extract_from_op(ir, body, rel, out);
        },
        Op::Filter { cond, body } => {
            if let Condition::Negation { relation, .. } = cond {
                push_plain_read(ir, *relation, rel, out);
            }
            extract_from_op(ir, body, rel, out);
        },
        Op::Insert { .. } => {},
        Op::Let { body, .. } => {
            extract_from_op(ir, body, rel, out);
        },
        Op::GroupBy { source, body, .. } => {
            push_plain_read(ir, *source, rel, out);
            extract_from_op(ir, body, rel, out);
        },
        Op::HashJoin { build_source, probe_source, body, .. } => {
            push_plain_read(ir, relation_of(build_source), rel, out);
            push_plain_read(ir, relation_of(probe_source), rel, out);
            extract_from_op(ir, body, rel, out);
        },
    }
    assert(pred_lists(out@) =~= before + reads(ir@, op@, rel@));
}

fn relation_of(s: &DataSource) -> (r: NameId)
    ensures
        r == crate::physical::source_relation(s@),
{
    match s {
        DataSource::Scan { relation, .. } => *relation,
        DataSource::ScanDelta { relation, .. } => *relation,
        DataSource::IndexLookup { relation, .. } => *relation,
    }
}

fn pred_eq(a: &ColumnPredicate, b: &ColumnPredicate) -> (r: bool)
    ensures
        r == (a@ == b@),
{
    a.col_idx == b.col_idx && a.op == b.op && value_eq(&a.value, &b.value)
}

fn has_pred(list: &Vec<ColumnPredicate>, p: &ColumnPredicate) -> (r: bool)
    ensures
        r == preds(list@).contains(p@),
{
    let mut i: usize = 0;
    while i < list.len()
        invariant
            i <= list@.len(),
            forall|j: int| 0 <= j < i ==> preds(list@)[j] != p@,
        decreases list@.len() - i,
    {
        if pred_eq(&list[i], p) {
            assert(preds(list@)[i as int] == p@);
            return true;
        }
        i += 1;
    }
    false
}

fn in_all(lists: &Vec<Vec<ColumnPredicate>>, p: &ColumnPredicate) -> (r: bool)
    ensures
        r == made_by_all(pred_lists(lists@), p@),
{
    let mut i: usize = 0;
    while i < lists.len()
        invariant
            i <= lists@.len(),
            forall|j: int| 0 <= j < i ==> (#[trigger] pred_lists(lists@)[j]).contains(p@),
        decreases lists@.len() - i,
    {
        if !has_pred(&lists[i], p) {
            assert(!pred_lists(lists@)[i as int].contains(p@));
            return false;
        }
        i += 1;
    }
    true
}

/// The predicates that every read makes.
fn shared_predicates(lists: &Vec<Vec<ColumnPredicate>>) -> (r: Vec<ColumnPredicate>)
    ensures
        preds(r@) == shared(pred_lists(lists@)),
{
    let mut r: Vec<ColumnPredicate> = Vec::new();
    assert(preds(r@) =~= Seq::<Pred>::empty());
    if lists.len() == 0 {
        return r;
    }
    let ghost all = pred_lists(lists@);
    let ghost first = all[0];
    let ghost keep = |p: Pred| made_by_all(all, p);
    let mut i: usize = 0;
    assert(preds(r@) =~= first.take(0).filter(keep)) by {
        reveal(Seq::filter);
        assert(first.take(0).len() == 0);
    }
    while i < lists[0].len()
        invariant
            lists@.len() > 0,
            first == preds(lists@[0]@),
            i <= first.len(),
            preds(r@) == first.take(i as int).filter(keep),
        decreases first.len() - i,
    {
        let ghost before = preds(r@);
        let ghost here = first[i as int];
        proof {
            reveal(Seq::filter);
            assert(first.take(i + 1).drop_last() =~= first.take(i as int));
            assert(first.take(i + 1).last() == here);
        }
        if in_all(lists, &lists[0][i]) {
            let p = &lists[0][i];
            r.push(ColumnPredicate::new(p.col_idx, p.op, copy_value(&p.value)));
            assert(preds(r@) =~= before.push(here));
        }
        i += 1;
    }
    assert(first.take(first.len() as int) =~= first);
    r
}

/// The predicates of one relation that may be left to its source.
pub fn relation_predicates(ir: &Ir, ops: &Vec<Op>, relation: &str) -> (r: Vec<ColumnPredicate>)
    ensures
        preds(r@) == pushed(ir@, plans(ops@), relation@),
{
    let ghost ps = plans(ops@);
    let mut lists: Vec<Vec<ColumnPredicate>> = Vec::new();
    let mut n: usize = 0;
    assert(pred_lists(lists@) =~= all_reads(ir@, ps, 0, relation@));
    while n < ops.len()
        invariant
            n <= ops@.len(),
            pred_lists(lists@) == all_reads(ir@, ps, n as nat, relation@),
        decreases ops@.len() - n,
    {
        assert(ps[n as int] == plan_of(ops@[n as int]));
        extract_from_op(ir, &ops[n], relation, &mut lists);
        n += 1;
    }
    shared_predicates(&lists)
}

/// The predicates that may be left to the sources of relations, for each relation that has any.
pub fn extract_predicates(ir: &Ir, ops: &Vec<Op>, edb_relations: &Vec<String>) -> (r: Vec<
    (String, Vec<ColumnPredicate>),
>)
    ensures
        forall|i: int|
            0 <= i < r@.len() ==> texts(edb_relations@).contains((#[trigger] r@[i]).0@) && preds(r@[i].1@)
                == pushed(ir@, plans(ops@), r@[i].0@) && r@[i].1@.len() > 0,
        forall|rel: Seq<char>|
            texts(edb_relations@).contains(rel) && (#[trigger] pushed(ir@, plans(ops@), rel)).len() > 0
                ==> exists|i: int| 0 <= i < r@.len() && (#[trigger] r@[i]).0@ == rel,
{
    let ghost ps = plans(ops@);
    let ghost names = texts(edb_relations@);
    let mut r: Vec<(String, Vec<ColumnPredicate>)> = Vec::new();
    let mut n: usize = 0;
    while n < edb_relations.len()
        invariant
            n <= edb_relations@.len(),
            forall|i: int|
                0 <= i < r@.len() ==> names.contains((#[trigger] r@[i]).0@) && preds(r@[i].1@) == pushed(
                    ir@,
                    ps,
                    r@[i].0@,
                ) && r@[i].1@.len() > 0,
            forall|j: int|
                0 <= j < n && pushed(ir@, ps, #[trigger] names[j]).len() > 0 ==> exists|i: int|
                    0 <= i < r@.len() && (#[trigger] r@[i]).0@ == names[j],
        decreases edb_relations@.len() - n,
    {
        let relation = edb_relations[n].as_str();
        let found = relation_predicates(ir, ops, relation);
        let ghost before = r@;
        assert(names[n as int] == relation@);
        if found.len() > 0 {
            assert(names.contains(relation@));
            r.push((relation.to_owned(), found));
            assert(r@[before.len() as int].0@ == names[n as int]);
        } else {
            assert(pushed(ir@, ps, names[n as int]).len() == 0);
        }
        proof {
            assert forall|j: int| 0 <= j < n + 1 && pushed(ir@, ps, #[trigger] names[j]).len() > 0 implies exists|
                i: int,
            | 0 <= i < r@.len() && (#[trigger] r@[i]).0@ == names[j] by {
                if j < n {
                    let i = choose|i: int| 0 <= i < before.len() && (#[trigger] before[i]).0@ == names[j];
                    assert(r@[i].0@ == names[j]);
                }
            }
        }
        n += 1;
    }
    proof {
        assert forall|rel: Seq<char>| names.contains(rel) && (#[trigger] pushed(ir@, ps, rel)).len() > 0 implies exists|
            i: int,
        | 0 <= i < r@.len() && (#[trigger] r@[i]).0@ == rel by {
            let j = names.index_of(rel);
            assert(names[j] == rel);
        }
    }
    r
}

/// A row that a read of a relation uses is not left out by its source: where all predicates of
/// the read hold, all that are left to the source hold.
pub proof fn no_row_in_use_is_left_out(g: Graph, ps: Seq<Plan>, rel: Seq<char>, i: int, row: Seq<Val>)
    requires
        0 <= i < all_reads(g, ps, ps.len(), rel).len(),
        all_hold(all_reads(g, ps, ps.len(), rel)[i], row),
    ensures
        all_hold(pushed(g, ps, rel), row),
{
    let rs = all_reads(g, ps, ps.len(), rel);
    let keep = |p: Pred| made_by_all(rs, p);
    let out = pushed(g, ps, rel);
    assert forall|k: int| 0 <= k < out.len() implies pred_holds(#[trigger] out[k], row) by {
        rs[0].lemma_filter_pred(keep, k);
        assert(keep(out[k]));
        assert(rs[i].contains(out[k]));
        let j = rs[i].index_of(out[k]);
        assert(rs[i][j] == out[k]);
    }
}

} // verus!
