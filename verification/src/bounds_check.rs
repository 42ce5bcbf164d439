//! The check of facts and rules against declared bounds.
use vstd::prelude::*;

use crate::bounds_infer::{
    alts, alts_in, alts_map, head_types, lemma_alts_grow, lemma_env_grows, lemma_types_grow,
    predicate_of, ready, run_of, types_in, vars_of_all, Env, Run,
};
use crate::bounds_infer::{
    atom_args, atom_predicate, bind_all, collect_all_vars, infer_clause, Program, Progress,
};
use crate::bounds_infer::atom_terms;
use crate::conform::conforms;
use crate::conform::set_conforms;
use crate::has_type::has_type;
use crate::has_type::value_has;
use crate::infer::lemma_ids_grow;
use crate::ir::{ids_below, Graph, Inst, InstId, Ir, NameId, Node};
use crate::name_trie::collected;
use crate::name_trie::NameTrie;
use crate::names::{NameMap, NameSet};
use crate::type_bounds::lemma_grounded_names;
use crate::type_expr::name_node;
use crate::type_expr::{copy_ids, find_or_create_name};
use crate::type_ops::all_bound;
use crate::wellformed::{check_all, TypeError};
use crate::wellformed::{check_types, type_error_in};

verus! {

/// Why a fact does not fit a declared alternative.
#[derive(Clone, Copy, PartialEq, Eq, Structural, Debug)]
pub enum FactMismatch {
    /// The numbers of arguments and of declared types; a temporal fact has two more
    /// arguments than types.
    Arity { args: usize, bound: usize, temporal: bool },
    /// The argument at that place does not have the declared type.
    Argument { index: usize, arg: InstId, declared: InstId },
}

/// Why the head of a rule does not fit a declared alternative.
#[derive(Clone, Debug)]
pub enum RuleMismatch {
    Arity { head: usize, bound: usize },
    Types { inferred: Vec<InstId>, declared: Vec<InstId> },
}

/// The model of a [`RuleMismatch`].
pub enum RuleReason {
    Arity { head: nat, bound: nat },
    Types { inferred: Seq<InstId>, declared: Seq<InstId> },
}

impl View for RuleMismatch {
    type V = RuleReason;

    open spec fn view(&self) -> RuleReason {
        match self {
            RuleMismatch::Arity { head, bound } => RuleReason::Arity {
                head: *head as nat,
                bound: *bound as nat,
            },
            RuleMismatch::Types { inferred, declared } => RuleReason::Types {
                inferred: inferred@,
                declared: declared@,
            },
        }
    }
}

/// Why a program is refused.
#[derive(Clone, Debug)]
pub enum BoundsError {
    /// A declared type is not well formed.
    Type(TypeError),
    /// A fact fits none of the declared alternatives.
    Fact { predicate: NameId, reasons: Vec<FactMismatch> },
    /// A rule fits none of the declared alternatives in some case.
    Rule { predicate: NameId, reasons: Vec<RuleMismatch> },
}

/// The model of a [`BoundsError`].
pub enum BoundsReason {
    Type(TypeError),
    Fact { predicate: NameId, reasons: Seq<FactMismatch> },
    Rule { predicate: NameId, reasons: Seq<RuleReason> },
}

/// The models of reasons.
pub open spec fn rule_reasons(v: Seq<RuleMismatch>) -> Seq<RuleReason> {
    Seq::new(v.len(), |i: int| v[i]@)
}

impl View for BoundsError {
    type V = BoundsReason;

    open spec fn view(&self) -> BoundsReason {
        match self {
            BoundsError::Type(e) => BoundsReason::Type(*e),
            BoundsError::Fact { predicate, reasons } => BoundsReason::Fact {
                predicate: *predicate,
                reasons: reasons@,
            },
            BoundsError::Rule { predicate, reasons } => BoundsReason::Rule {
                predicate: *predicate,
                reasons: rule_reasons(reasons@),
            },
        }
    }
}

/// Whether a reason speaks of what there is.
pub open spec fn fact_reason_in(g: Graph, m: FactMismatch) -> bool {
    m matches FactMismatch::Argument { arg, declared, .. } ==> g.has(arg) && g.has(declared)
}

/// Whether a reason speaks of what there is.
pub open spec fn rule_reason_in(g: Graph, m: RuleReason) -> bool {
    m matches RuleReason::Types { inferred, declared } ==> ids_below(inferred, g.nodes.len()) && ids_below(
        declared,
        g.nodes.len(),
    )
}

/// Whether all reasons speak of what there is.
pub open spec fn fact_reasons_in(g: Graph, reasons: Seq<FactMismatch>) -> bool {
    forall|i: int| 0 <= i < reasons.len() ==> fact_reason_in(g, #[trigger] reasons[i])
}

/// Whether all reasons speak of what there is.
pub open spec fn rule_reasons_in(g: Graph, reasons: Seq<RuleReason>) -> bool {
    forall|i: int| 0 <= i < reasons.len() ==> rule_reason_in(g, #[trigger] reasons[i])
}

/// Whether an error speaks of what there is.
pub open spec fn reason_in(g: Graph, e: BoundsReason) -> bool {
    match e {
        BoundsReason::Type(t) => type_error_in(g, t),
        BoundsReason::Fact { predicate, reasons } => g.has_name(predicate) && fact_reasons_in(g, reasons),
        BoundsReason::Rule { predicate, reasons } => g.has_name(predicate) && rule_reasons_in(g, reasons),
    }
}

/// The model of a result.
pub open spec fn outcome(r: Result<(), BoundsError>) -> Option<BoundsReason> {
    match r {
        Ok(()) => None,
        Err(e) => Some(e@),
    }
}

/// What declarations have told so far.
pub struct Declared {
    pub g: Graph,
    pub paths: Set<Seq<Seq<char>>>,
    pub decls: Map<NameId, Seq<Seq<InstId>>>,
}

/// The paths once the names of the first `n` types are collected.
pub open spec fn collected_all(g: Graph, types: Seq<InstId>, paths: Set<Seq<Seq<char>>>, n: nat) -> Set<Seq<Seq<char>>>
    decreases n,
{
    if n == 0 {
        paths
    } else {
        collected(g, types[n - 1], collected_all(g, types, paths, (n - 1) as nat))
    }
}

/// The context of types: their variables are bound to `any`.
pub open spec fn context_of(g: Graph, types: Seq<InstId>, any: InstId) -> Map<NameId, InstId> {
    all_bound(vars_of_all(g, types, types.len()), any)
}

/// What a bound declaration with these types tells, and what is wrong with it.
pub open spec fn declared_bound(d: Declared, types: Seq<InstId>) -> (Declared, Result<(), TypeError>) {
    let paths = collected_all(d.g, types, d.paths, types.len());
    let (h, any) = name_node(d.g, "/any"@);
    (
        Declared { g: h, paths, decls: d.decls },
        check_types(h, context_of(h, types, any), types, 0, h.nodes.len()),
    )
}

/// What the bounds from the `i`-th on tell, after the alternatives `so_far`.
pub open spec fn declared_bounds(d: Declared, bounds: Seq<InstId>, i: int, so_far: Seq<Seq<InstId>>) -> (
    Declared,
    Result<Seq<Seq<InstId>>, TypeError>,
)
    decreases bounds.len() - i,
{
    if i < 0 || i >= bounds.len() {
        (d, Ok(so_far))
    } else {
        match d.g.node(bounds[i]) {
            Node::BoundDecl { base_terms } => {
                let (e, r) = declared_bound(d, base_terms);
                match r {
                    Ok(()) => declared_bounds(e, bounds, i + 1, so_far.push(base_terms)),
                    Err(err) => (e, Err(err)),
                }
            },
            _ => declared_bounds(d, bounds, i + 1, so_far),
        }
    }
}

/// What the declarations among the nodes from `i` up to `n` tell.
pub open spec fn declarations(d: Declared, i: nat, n: nat) -> (Declared, Result<(), TypeError>)
    decreases n - i,
{
    if i >= n {
        (d, Ok(()))
    } else {
        match d.g.nodes[i as int] {
            Node::Decl { atom, bounds } => match predicate_of(d.g, atom) {
                Some(p) => {
                    let (e, r) = declared_bounds(d, bounds, 0, Seq::empty());
                    match r {
                        Ok(found) => {
                            let f = if found.len() > 0 {
                                Declared { decls: e.decls.insert(p, found), ..e }
                            } else {
                                e
                            };
                            declarations(f, i + 1, n)
                        },
                        Err(err) => (e, Err(err)),
                    }
                },
                None => declarations(d, i + 1, n),
            },
            _ => declarations(d, i + 1, n),
        }
    }
}

/// The rules with premises or transforms among the first `n` nodes, each with the
/// predicate it defines.
pub open spec fn rules_of(g: Graph, n: nat) -> Seq<(NameId, InstId)>
    decreases n,
{
    if n == 0 {
        Seq::empty()
    } else {
        let rest = rules_of(g, (n - 1) as nat);
        match g.nodes[n - 1] {
            Node::Rule { head, premises, transform } => if premises.len() > 0 || transform.len() > 0 {
                match predicate_of(g, head) {
                    Some(p) => rest.push((p, InstId((n - 1) as usize))),
                    None => rest,
                }
            } else {
                rest
            },
            _ => rest,
        }
    }
}

/// The place of the first argument from `i` on that does not have its type.
pub open spec fn first_misfit(g: Graph, args: Seq<InstId>, types: Seq<InstId>, i: int) -> Option<int>
    decreases types.len() - i,
{
    if i < 0 || i >= types.len() {
        None
    } else if !value_has(g, types[i], args[i]) {
        Some(i)
    } else {
        first_misfit(g, args, types, i + 1)
    }
}

/// Why a fact does not fit the types, if it does not.
pub open spec fn fact_misfit(g: Graph, p: NameId, args: Seq<InstId>, types: Seq<InstId>) -> Option<FactMismatch> {
    let temporal = g.temporal.contains(p);
    let expected: nat = if temporal {
        types.len() + 2
    } else {
        types.len()
    };
    if args.len() != expected {
        Some(
            FactMismatch::Arity {
                args: args.len() as usize,
                bound: types.len() as usize,
                temporal,
            },
        )
    } else {
        match first_misfit(g, args, types, 0) {
            Some(i) => Some(
                FactMismatch::Argument { index: i as usize, arg: args[i], declared: types[i] },
            ),
            None => None,
        }
    }
}

/// Why a fact fits none of the alternatives from `i` on, after the reasons `so_far`;
/// `None` if it fits one, or if there is none.
pub open spec fn fact_reasons(
    g: Graph,
    p: NameId,
    args: Seq<InstId>,
    options: Seq<Seq<InstId>>,
    i: int,
    so_far: Seq<FactMismatch>,
) -> Option<Seq<FactMismatch>>
    decreases options.len() - i,
{
    if i < 0 || i >= options.len() {
        if so_far.len() == 0 {
            None
        } else {
            Some(so_far)
        }
    } else {
        match fact_misfit(g, p, args, options[i]) {
            None => None,
            Some(m) => fact_reasons(g, p, args, options, i + 1, so_far.push(m)),
        }
    }
}

/// The types of a head without the interval of validity of a temporal predicate.
pub open spec fn trimmed(temporal: bool, types: Seq<InstId>) -> Seq<InstId> {
    if temporal && types.len() >= 2 {
        types.take(types.len() - 2)
    } else {
        types
    }
}

/// Every type conforms to the one at the same place.
pub open spec fn all_conform(g: Graph, ctx: Map<NameId, InstId>, a: Seq<InstId>, b: Seq<InstId>) -> bool {
    forall|k: int| 0 <= k < a.len() && k < b.len() ==> conforms(g, ctx, #[trigger] a[k], #[trigger] b[k])
}

/// Why the head types fit none of the alternatives from `i` on, after the reasons
/// `so_far`, and the graph that is left; `None` if they fit one, or if there is none.
pub open spec fn rule_misfits(
    g: Graph,
    types: Seq<InstId>,
    options: Seq<Seq<InstId>>,
    i: int,
    so_far: Seq<RuleReason>,
) -> (Graph, Option<Seq<RuleReason>>)
    decreases options.len() - i,
{
    if i < 0 || i >= options.len() {
        (
            g,
            if so_far.len() == 0 {
                None
            } else {
                Some(so_far)
            },
        )
    } else if options[i].len() != types.len() {
        rule_misfits(
            g,
            types,
            options,
            i + 1,
            so_far.push(RuleReason::Arity { head: types.len(), bound: options[i].len() }),
        )
    } else {
        let (h, any) = name_node(g, "/any"@);
        if all_conform(h, context_of(h, options[i], any), types, options[i]) {
            (h, None)
        } else {
            rule_misfits(
                h,
                types,
                options,
                i + 1,
                so_far.push(RuleReason::Types { inferred: types, declared: options[i] }),
            )
        }
    }
}

/// Why the head types of a case from the `i`-th on fit none of the alternatives, for
/// the first such case, and the graph that is left; `None` if every case fits one.
pub open spec fn head_misfits(
    g: Graph,
    temporal: bool,
    cases: Seq<Seq<InstId>>,
    options: Seq<Seq<InstId>>,
    i: int,
) -> (Graph, Option<Seq<RuleReason>>)
    decreases cases.len() - i,
{
    if i < 0 || i >= cases.len() {
        (g, None)
    } else {
        let (h, reasons) = rule_misfits(g, trimmed(temporal, cases[i]), options, 0, Seq::empty());
        match reasons {
            Some(reasons) => (h, Some(reasons)),
            None => head_misfits(h, temporal, cases, options, i + 1),
        }
    }
}

/// Why a rule for the predicate `p` fits none of the alternatives in some case, and the state
/// that its check leaves.
#[verifier::opaque]
pub open spec fn rule_reasons_of(
    env: Env,
    run: Run,
    visiting: Set<NameId>,
    rule: InstId,
    p: NameId,
    options: Seq<Seq<InstId>>,
) -> (Run, Option<Seq<RuleReason>>) {
    let (r, types) = head_types(env, run, visiting, rule);
    let (h, reasons) = head_misfits(r.g, run.g.temporal.contains(p), types, options, 0);
    (Run { g: h, ..r }, reasons)
}

/// What is wrong with the clause at `i`, and the state that its check leaves.
pub open spec fn clause_error(env: Env, run: Run, i: nat) -> (Run, Option<BoundsReason>) {
    match run.g.nodes[i as int] {
        Node::Rule { head, premises, transform } => match predicate_of(run.g, head) {
            Some(p) => if env.decls.contains_key(p) {
                let options = env.decls[p];
                if premises.len() == 0 && transform.len() == 0 {
                    match fact_reasons(run.g, p, atom_terms(run.g, head), options, 0, Seq::empty()) {
                        Some(reasons) => (run, Some(BoundsReason::Fact { predicate: p, reasons })),
                        None => (run, None),
                    }
                } else {
                    let (r, reasons) = rule_reasons_of(
                        env,
                        run,
                        Set::empty(),
                        InstId(i as usize),
                        p,
                        options,
                    );
                    match reasons {
                        Some(reasons) => (r, Some(BoundsReason::Rule { predicate: p, reasons })),
                        None => (r, None),
                    }
                }
            } else {
                (run, None)
            },
            None => (run, None),
        },
        _ => (run, None),
    }
}

/// The first thing wrong with the clauses from `i` up to `n`, and the state that the
/// check leaves.
pub open spec fn clause_errors(env: Env, run: Run, i: nat, n: nat) -> (Run, Option<BoundsReason>)
    decreases n - i,
{
    if i >= n {
        (run, None)
    } else {
        let (r, e) = clause_error(env, run, i);
        match e {
            Some(e) => (r, Some(e)),
            None => clause_errors(env, r, i + 1, n),
        }
    }
}

/// What is wrong with a program, and the graph that the check leaves.
pub open spec fn program_error(g: Graph) -> (Graph, Option<BoundsReason>) {
    let start = Declared { g, paths: Set::empty(), decls: Map::empty() };
    let (d, r) = declarations(start, 0, g.nodes.len());
    match r {
        Err(e) => (d.g, Some(BoundsReason::Type(e))),
        Ok(()) => {
            let env = Env {
                paths: d.paths,
                decls: d.decls,
                rules: rules_of(d.g, d.g.nodes.len()),
                limit: d.g.names.len(),
            };
            let run = Run { g: d.g, inferred: Map::empty(), fresh: 0 };
            let (s, e) = clause_errors(env, run, 0, d.g.nodes.len());
            (s.g, e)
        },
    }
}

/// Reads one bound declaration.
fn collect_bound(ir: &mut Ir, trie: &mut NameTrie, types: &Vec<InstId>, Ghost(decls): Ghost<Map<NameId, Seq<Seq<InstId>>>>) -> (r: Result<(), TypeError>)
    requires
        old(ir)@.wf(),
        ids_below(types@, old(ir)@.nodes.len()),
    ensures
        final(ir)@.wf(),
        old(ir)@.extended_by(final(ir)@),
        (Declared { g: final(ir)@, paths: final(trie)@, decls }, r) == declared_bound(
            Declared { g: old(ir)@, paths: old(trie)@, decls },
            types@,
        ),
        r matches Err(e) ==> type_error_in(final(ir)@, e),
{
    let ghost g = ir@;
    let ghost paths = trie@;
    let mut n: usize = 0;
    while n < types.len()
        invariant
            ir@ == g,
            n <= types@.len(),
            trie@ == collected_all(g, types@, paths, n as nat),
        decreases types@.len() - n,
    {
        trie.collect(ir, types[n]);
        n += 1;
    }
    let any = find_or_create_name(ir, "/any");
    let ghost h = ir@;
    proof {
        lemma_ids_grow(types@, g, h);
    }
    let vars = collect_all_vars(ir, types);
    let ctx = bind_all(&vars, any);
    check_all(ir, &ctx, types.as_slice(), 0, Ghost(h.nodes.len()))
}

/// Reads the declarations: the names of the declared types and the alternatives of
/// each predicate.
fn collect_declarations(ir: &mut Ir, trie: &mut NameTrie, decls: &mut NameMap<Vec<Vec<InstId>>>) -> (r: Result<(), TypeError>)
    requires
        old(ir)@.wf(),
        types_in(alts_map(old(decls)@), old(ir)@),
    ensures
        final(ir)@.wf(),
        old(ir)@.extended_by(final(ir)@),
        (
            Declared { g: final(ir)@, paths: final(trie)@, decls: alts_map(final(decls)@) },
            r,
        ) == declarations(
            Declared { g: old(ir)@, paths: old(trie)@, decls: alts_map(old(decls)@) },
            0,
            old(ir)@.nodes.len(),
        ),
        types_in(alts_map(final(decls)@), final(ir)@),
        r matches Err(e) ==> type_error_in(final(ir)@, e),
{
    let ghost g = ir@;
    let ghost start = Declared { g, paths: trie@, decls: alts_map(decls@) };
    let n = ir.len();
    let mut i: usize = 0;
    while i < n
        invariant
            ir@.wf(),
            g.extended_by(ir@),
            i <= n,
            n == g.nodes.len(),
            types_in(alts_map(decls@), ir@),
            declarations(start, 0, n as nat) == declarations(
                Declared { g: ir@, paths: trie@, decls: alts_map(decls@) },
                i as nat,
                n as nat,
            ),
        decreases n - i,
    {
        let ghost here = ir@;
        let ghost d = Declared { g: here, paths: trie@, decls: alts_map(decls@) };
        let mut decl: Option<(InstId, Vec<InstId>)> = None;
        assert(here.nodes[i as int].fits(i as nat, here.names.len(), here.strings.len()));
        assert(here.node(InstId(i)) == here.nodes[i as int]);
        if let Inst::Decl { atom, bounds } = ir.get(InstId(i)) {
            decl = Some((*atom, copy_ids(bounds.as_slice())));
        }
        if let Some((atom, bounds)) = decl {
            if let Some(p) = atom_predicate(ir, atom) {
                let mut found: Vec<Vec<InstId>> = Vec::new();
                let mut b: usize = 0;
                assert(alts(found) =~= Seq::<Seq<InstId>>::empty());
                while b < bounds.len()
                    invariant
                        ir@.wf(),
                        here.extended_by(ir@),
                        b <= bounds@.len(),
                        declared_bounds(d, bounds@, 0, Seq::empty()) == declared_bounds(
                            Declared { g: ir@, paths: trie@, decls: d.decls },
                            bounds@,
                            b as int,
                            alts(found),
                        ),
                        alts_in(alts(found), ir@),
                    decreases bounds@.len() - b,
                {
                    let ghost now = ir@;
                    let ghost so_far = alts(found);
                    let bound = bounds[b];
                    assert(now.nodes[bound.0 as int].fits(
                        bound.0 as nat,
                        now.names.len(),
                        now.strings.len(),
                    ));
                    let mut types: Option<Vec<InstId>> = None;
                    if let Inst::BoundDecl { base_terms } = ir.get(bound) {
                        types = Some(copy_ids(base_terms.as_slice()));
                    }
                    if let Some(t) = types {
                        let checked = collect_bound(ir, trie, &t, Ghost(d.decls));
                        if let Err(e) = checked {
                            proof {
                                lemma_types_grow(d.decls, here, ir@);
                            }
                            return Err(e);
                        }
                        proof {
                            lemma_alts_grow(so_far, now, ir@);
                            lemma_ids_grow(t@, now, ir@);
                        }
                        found.push(t);
                        assert(alts(found) =~= so_far.push(t@));
                    }
                    b += 1;
                }
                proof {
                    lemma_types_grow(d.decls, here, ir@);
                }
                if found.len() > 0 {
                    let ghost made = alts(found);
                    decls.insert(p, found);
                    assert(alts_map(decls@) =~= d.decls.insert(p, made));
                }
            }
        }
        i += 1;
    }
    Ok(())
}

/// Lists the rules with the predicates they define.
fn build_rules_map(ir: &Ir) -> (r: Vec<(NameId, InstId)>)
    requires
        ir@.wf(),
    ensures
        r@ == rules_of(ir@, ir@.nodes.len()),
        forall|i: int|
            0 <= i < r@.len() ==> (#[trigger] r@[i]).0.0 < ir@.names.len() && ir@.has(r@[i].1)
                && ir@.node(r@[i].1) is Rule,
{
    let mut r: Vec<(NameId, InstId)> = Vec::new();
    let n = ir.len();
    let mut i: usize = 0;
    while i < n
        invariant
            i <= n,
            n == ir@.nodes.len(),
            r@ == rules_of(ir@, i as nat),
            forall|j: int|
                0 <= j < r@.len() ==> (#[trigger] r@[j]).0.0 < ir@.names.len() && ir@.has(r@[j].1)
                    && ir@.node(r@[j].1) is Rule,
        decreases n - i,
    {
        assert(ir@.node(InstId(i)) == ir@.nodes[i as int]);
        if let Inst::Rule { head, premises, transform } = ir.get(InstId(i)) {
            if premises.len() > 0 || transform.len() > 0 {
                if let Some(p) = atom_predicate(ir, *head) {
                    r.push((p, InstId(i)));
                }
            }
        }
        i += 1;
    }
    r
}

/// Checks a fact against one alternative.
fn check_fact_against_bound(ir: &Ir, predicate: NameId, args: &Vec<InstId>, types: &Vec<InstId>) -> (r: Option<FactMismatch>)
    requires
        ir@.wf(),
        ids_below(args@, ir@.nodes.len()),
        ids_below(types@, ir@.nodes.len()),
    ensures
        r == fact_misfit(ir@, predicate, args@, types@),
        r matches Some(m) ==> fact_reason_in(ir@, m),
{
    let temporal = ir.is_temporal(predicate);
    let fits = if temporal {
        args.len() >= 2 && args.len() - 2 == types.len()
    } else {
        args.len() == types.len()
    };
    if !fits {
        return Some(FactMismatch::Arity { args: args.len(), bound: types.len(), temporal });
    }
    let mut i: usize = 0;
    while i < types.len()
        invariant
            i <= types@.len(),
            types@.len() <= args@.len(),
            first_misfit(ir@, args@, types@, 0) == first_misfit(ir@, args@, types@, i as int),
        decreases types@.len() - i,
    {
        if !has_type(ir, types[i], args[i]) {
            return Some(FactMismatch::Argument { index: i, arg: args[i], declared: types[i] });
        }
        i += 1;
    }
    None
}

/// Checks a fact against the declared alternatives.
fn check_fact(ir: &Ir, predicate: NameId, args: &Vec<InstId>, options: &Vec<Vec<InstId>>) -> (r: Option<Vec<FactMismatch>>)
    requires
        ir@.wf(),
        ids_below(args@, ir@.nodes.len()),
        alts_in(alts(*options), ir@),
    ensures
        match fact_reasons(ir@, predicate, args@, alts(*options), 0, Seq::empty()) {
            Some(reasons) => r matches Some(v) && v@ == reasons,
            None => r is None,
        },
        r matches Some(v) ==> fact_reasons_in(ir@, v@),
{
    let mut reasons: Vec<FactMismatch> = Vec::new();
    let mut i: usize = 0;
    assert(reasons@ =~= Seq::<FactMismatch>::empty());
    while i < options.len()
        invariant
            i <= options@.len(),
            fact_reasons(ir@, predicate, args@, alts(*options), 0, Seq::empty()) == fact_reasons(
                ir@,
                predicate,
                args@,
                alts(*options),
                i as int,
                reasons@,
            ),
            fact_reasons_in(ir@, reasons@),
        decreases options@.len() - i,
    {
        assert(alts(*options)[i as int] == options@[i as int]@);
        match check_fact_against_bound(ir, predicate, args, &options[i]) {
            None => {
                return None;
            },
            Some(m) => {
                reasons.push(m);
            },
        }
        i += 1;
    }
    if reasons.len() == 0 {
        None
    } else {
        Some(reasons)
    }
}

/// Whether every type conforms to the one at the same place.
fn conform_all(ir: &Ir, any: InstId, types: &Vec<InstId>, declared: &Vec<InstId>) -> (r: bool)
    requires
        ir@.wf(),
        ir@.has(any),
        ir@.node(any) is Name,
        types@.len() == declared@.len(),
        ids_below(types@, ir@.nodes.len()),
        ids_below(declared@, ir@.nodes.len()),
    ensures
        r == all_conform(ir@, context_of(ir@, declared@, any), types@, declared@),
{
    let vars = collect_all_vars(ir, declared);
    let ctx = bind_all(&vars, any);
    proof {
        lemma_grounded_names(ir@, ctx@);
    }
    let mut k: usize = 0;
    while k < types.len()
        invariant
            k <= types@.len(),
            forall|j: int|
                0 <= j < k && j < declared@.len() ==> conforms(
                    ir@,
                    ctx@,
                    #[trigger] types@[j],
                    #[trigger] declared@[j],
                ),
        decreases types@.len() - k,
    {
        if !set_conforms(ir, &ctx, types[k], declared[k]) {
            return false;
        }
        k += 1;
    }
    true
}

/// Checks the inferred types of a head against the declared alternatives.
fn check_head(ir: &mut Ir, types: &Vec<InstId>, options: &Vec<Vec<InstId>>) -> (r: Option<Vec<RuleMismatch>>)
    requires
        old(ir)@.wf(),
        ids_below(types@, old(ir)@.nodes.len()),
        alts_in(alts(*options), old(ir)@),
    ensures
        final(ir)@.wf(),
        old(ir)@.extended_by(final(ir)@),
        ({
            let (g, reasons) = rule_misfits(old(ir)@, types@, alts(*options), 0, Seq::empty());
            &&& g == final(ir)@
            &&& match reasons {
                Some(reasons) => r matches Some(v) && rule_reasons(v@) == reasons,
                None => r is None,
            }
        }),
        r matches Some(v) ==> rule_reasons_in(final(ir)@, rule_reasons(v@)),
{
    let ghost g = ir@;
    let mut reasons: Vec<RuleMismatch> = Vec::new();
    let mut i: usize = 0;
    assert(rule_reasons(reasons@) =~= Seq::<RuleReason>::empty());
    while i < options.len()
        invariant
            ir@.wf(),
            g.extended_by(ir@),
            i <= options@.len(),
            rule_misfits(g, types@, alts(*options), 0, Seq::empty()) == rule_misfits(
                ir@,
                types@,
                alts(*options),
                i as int,
                rule_reasons(reasons@),
            ),
            rule_reasons_in(ir@, rule_reasons(reasons@)),
        decreases options@.len() - i,
    {
        let declared = &options[i];
        assert(alts(*options)[i as int] == declared@);
        let ghost so_far = rule_reasons(reasons@);
        if declared.len() != types.len() {
            let m = RuleMismatch::Arity { head: types.len(), bound: declared.len() };
            reasons.push(m);
            assert(rule_reasons(reasons@) =~= so_far.push(m@));
        } else {
            let ghost before = ir@;
            let any = find_or_create_name(ir, "/any");
            proof {
                lemma_ids_grow(types@, g, ir@);
                lemma_alts_grow(alts(*options), g, ir@);
            }
            if conform_all(ir, any, types, declared) {
                return None;
            }
            let m = RuleMismatch::Types {
                inferred: copy_ids(types.as_slice()),
                declared: copy_ids(declared.as_slice()),
            };
            reasons.push(m);
            assert(rule_reasons(reasons@) =~= so_far.push(m@));
        }
        i += 1;
    }
    if reasons.len() == 0 {
        None
    } else {
        Some(reasons)
    }
}

/// Checks the inferred types of a head in each case against the declared alternatives.
fn check_cases(ir: &mut Ir, temporal: bool, cases: &Vec<Vec<InstId>>, options: &Vec<Vec<InstId>>) -> (r: Option<Vec<RuleMismatch>>)
    requires
        old(ir)@.wf(),
        alts_in(alts(*cases), old(ir)@),
        alts_in(alts(*options), old(ir)@),
    ensures
        final(ir)@.wf(),
        old(ir)@.extended_by(final(ir)@),
        ({
            let (g, reasons) = head_misfits(old(ir)@, temporal, alts(*cases), alts(*options), 0);
            &&& g == final(ir)@
            &&& match reasons {
                Some(reasons) => r matches Some(v) && rule_reasons(v@) == reasons,
                None => r is None,
            }
        }),
        r matches Some(v) ==> rule_reasons_in(final(ir)@, rule_reasons(v@)),
{
    let ghost g = ir@;
    let mut i: usize = 0;
    while i < cases.len()
        invariant
            ir@.wf(),
            g.extended_by(ir@),
            i <= cases@.len(),
            head_misfits(g, temporal, alts(*cases), alts(*options), 0) == head_misfits(
                ir@,
                temporal,
                alts(*cases),
                alts(*options),
                i as int,
            ),
        decreases cases@.len() - i,
    {
        let ghost all = cases@[i as int]@;
        proof {
            assert(alts(*cases)[i as int] == all);
            lemma_ids_grow(all, g, ir@);
            lemma_alts_grow(alts(*options), g, ir@);
        }
        let mut types = copy_ids(cases[i].as_slice());
        if temporal && types.len() >= 2 {
            types.truncate(types.len() - 2);
            assert(types@ =~= all.take(all.len() - 2));
        }
        if let Some(reasons) = check_head(ir, &types, options) {
            return Some(reasons);
        }
        i += 1;
    }
    None
}

/// Checks a rule: in every case, the types of the head, inferred from the body, fit
/// one of the declared alternatives.
fn check_rule(
    ir: &mut Ir,
    program: &Program,
    progress: &mut Progress,
    rule: InstId,
    predicate: NameId,
    options: &Vec<Vec<InstId>>,
) -> (r: Option<Vec<RuleMismatch>>)
    requires
        ready(*program, *old(progress), old(ir)@),
        old(ir)@.has(rule),
        old(ir)@.node(rule) is Rule,
        alts_in(alts(*options), old(ir)@),
    ensures
        ready(*program, *final(progress), final(ir)@),
        final(progress).visiting@ == old(progress).visiting@,
        old(ir)@.extended_by(final(ir)@),
        ({
            let (s, reasons) = rule_reasons_of(
                program@,
                run_of(*old(progress), old(ir)@),
                old(progress).visiting@,
                rule,
                predicate,
                alts(*options),
            );
            &&& run_of(*final(progress), final(ir)@) == s
            &&& match reasons {
                Some(reasons) => r matches Some(v) && rule_reasons(v@) == reasons,
                None => r is None,
            }
        }),
        r matches Some(v) ==> rule_reasons_in(final(ir)@, rule_reasons(v@)),
{
    let ghost g = ir@;
    let temporal = ir.is_temporal(predicate);
    let cases = infer_clause(ir, program, progress, rule);
    let ghost h = ir@;
    proof {
        lemma_alts_grow(alts(*options), g, h);
    }
    let r = check_cases(ir, temporal, &cases, options);
    proof {
        reveal(rule_reasons_of);
        lemma_env_grows(program@, h, ir@);
        lemma_types_grow(alts_map(progress.inferred@), h, ir@);
    }
    r
}

/// Checks the clause at `i`.
#[verifier::spinoff_prover]
fn check_clause(ir: &mut Ir, program: &Program, progress: &mut Progress, i: usize) -> (r: Option<BoundsError>)
    requires
        ready(*program, *old(progress), old(ir)@),
        old(progress).visiting@ == Set::<NameId>::empty(),
        i < old(ir)@.nodes.len(),
    ensures
        ready(*program, *final(progress), final(ir)@),
        final(progress).visiting@ == Set::<NameId>::empty(),
        old(ir)@.extended_by(final(ir)@),
        ({
            let (run, e) = clause_error(program@, run_of(*old(progress), old(ir)@), i as nat);
            &&& run == run_of(*final(progress), final(ir)@)
            &&& match e {
                Some(e) => r matches Some(x) && x@ == e,
                None => r is None,
            }
        }),
        r matches Some(x) ==> reason_in(final(ir)@, x@),
{
    let ghost g = ir@;
    let rule = InstId(i);
    assert(g.node(rule) == g.nodes[i as int]);
    let mut clause: Option<(InstId, bool)> = None;
    if let Inst::Rule { head, premises, transform } = ir.get(rule) {
        clause = Some((*head, premises.len() == 0 && transform.len() == 0));
    }
    if let Some((head, fact)) = clause {
        if let Some(p) = atom_predicate(ir, head) {
            if let Some(options) = program.decls.get(p) {
                assert(program@.decls.contains_key(p));
                if fact {
                    let args = atom_args(ir, head);
                    if let Some(reasons) = check_fact(ir, p, &args, options) {
                        return Some(BoundsError::Fact { predicate: p, reasons });
                    }
                } else if let Some(reasons) = check_rule(ir, program, progress, rule, p, options) {
                    return Some(BoundsError::Rule { predicate: p, reasons });
                }
            }
        }
    }
    None
}

/// Checks all clauses in turn.
fn check_all_clauses(ir: &mut Ir, program: &Program, progress: &mut Progress) -> (r: Option<BoundsError>)
    requires
        ready(*program, *old(progress), old(ir)@),
        old(progress).visiting@ == Set::<NameId>::empty(),
    ensures
        ready(*program, *final(progress), final(ir)@),
        old(ir)@.extended_by(final(ir)@),
        ({
            let (run, e) = clause_errors(
                program@,
                run_of(*old(progress), old(ir)@),
                0,
                old(ir)@.nodes.len(),
            );
            &&& run == run_of(*final(progress), final(ir)@)
            &&& match e {
                Some(e) => r matches Some(x) && x@ == e,
                None => r is None,
            }
        }),
        r matches Some(x) ==> reason_in(final(ir)@, x@),
{
    let ghost g = ir@;
    let ghost start = run_of(*progress, g);
    let n = ir.len();
    let mut i: usize = 0;
    while i < n
        invariant
            ready(*program, *progress, ir@),
            g.extended_by(ir@),
            i <= n,
            n == g.nodes.len(),
            progress.visiting@ == Set::<NameId>::empty(),
            clause_errors(program@, start, 0, n as nat) == clause_errors(
                program@,
                run_of(*progress, ir@),
                i as nat,
                n as nat,
            ),
        decreases n - i,
    {
        if let Some(e) = check_clause(ir, program, progress, i) {
            return Some(e);
        }
        i += 1;
    }
    None
}

/// Checks the declarations and clauses of a program.
fn check_program(ir: &mut Ir) -> (r: Result<(), BoundsError>)
    requires
        old(ir)@.wf(),
    ensures
        final(ir)@.wf(),
        old(ir)@.extended_by(final(ir)@),
        (final(ir)@, outcome(r)) == program_error(old(ir)@),
        r matches Err(e) ==> reason_in(final(ir)@, e@),
{
    let mut trie = NameTrie::new();
    let mut decls: NameMap<Vec<Vec<InstId>>> = NameMap::new();
    assert(alts_map(decls@) =~= Map::<NameId, Seq<Seq<InstId>>>::empty());
    if let Err(e) = collect_declarations(ir, &mut trie, &mut decls) {
        return Err(BoundsError::Type(e));
    }
    let rules = build_rules_map(ir);
    let program = Program { trie, decls, rules, limit: ir.num_names() };
    let mut progress = Progress { inferred: NameMap::new(), visiting: NameSet::new(), fresh: 0 };
    assert(alts_map(progress.inferred@) =~= Map::<NameId, Seq<Seq<InstId>>>::empty());
    match check_all_clauses(ir, &program, &mut progress) {
        Some(e) => Err(e),
        None => Ok(()),
    }
}

/// The checker of a program.
pub struct BoundsChecker<'a> {
    pub ir: &'a mut Ir,
}

impl<'a> BoundsChecker<'a> {
    /// A checker of the program in `ir`.
    pub fn new(ir: &'a mut Ir) -> (r: BoundsChecker<'a>)
        ensures
            *r.ir == *old(ir),
            *final(ir) == *final(r.ir),
    {
        BoundsChecker { ir }
    }

    /// Checks that declared types are well formed, that every fact of a declared
    /// predicate fits one of the declared alternatives, and that every rule does so
    /// whichever alternatives of their predicates its premises are taken at.
    pub fn check(&mut self) -> (r: Result<(), BoundsError>)
        requires
            (*old(self).ir)@.wf(),
        ensures
            (*final(self).ir)@.wf(),
            ((*final(self).ir)@, outcome(r)) == program_error((*old(self).ir)@),
            r matches Err(e) ==> reason_in((*final(self).ir)@, e@),
            *final(final(self).ir) == *final(old(self).ir),
    {
        check_program(self.ir)
    }
}

} // verus!
