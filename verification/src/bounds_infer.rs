//! Inference of the types of relations from declarations and rules.
use vstd::prelude::*;

use crate::infer::{
    arg_bound, arg_bounds, assigned, lemma_ids_grow, lemma_ranges_grow, refined, Ranges,
};
use crate::infer::{bound_of_arg, meet_of, InferState};
use crate::ir::{ids_below, Graph, Inst, InstId, Ir, NameId, Node};
use crate::name_trie::NameTrie;
use crate::names::{NameMap, NameSet};
use crate::text::decimal;
use crate::text::{push_decimal, str_eq};
use crate::type_bounds::{lemma_grounded_grows, lemma_grounded_names, lower, without};
use crate::type_bounds::{lower_bound, remove_from_union_type};
use crate::type_expr::{
    copy_ids, find_or_create_name, is_empty_type, is_struct_type, is_tagged_union_type,
    is_union_type, list_type_arg, map_type_args, TypeContext, FN_EMPTY_TYPE, FN_LIST, FN_MAP,
    FN_STRUCT, FN_TAGGED_UNION, FN_UNION,
};
use crate::type_expr::{args_of, is_fn, name_node};
use crate::type_ops::{all_bound, field_deep, substituted, vars_in};
use crate::type_ops::{apply_subst, collect_vars, struct_type_field_deep};

verus! {

/// What inference starts from: the names of the declared types, the declared
/// alternatives of each predicate, and the rules with the predicates they define.
pub struct Program {
    pub trie: NameTrie,
    pub decls: NameMap<Vec<Vec<InstId>>>,
    pub rules: Vec<(NameId, InstId)>,
    pub limit: usize,
}

/// What inference has found out so far.
pub struct Progress {
    pub inferred: NameMap<Vec<Vec<InstId>>>,
    pub visiting: NameSet,
    pub fresh: usize,
}

/// The model of a [`Program`].
pub struct Env {
    pub paths: Set<Seq<Seq<char>>>,
    pub decls: Map<NameId, Seq<Seq<InstId>>>,
    pub rules: Seq<(NameId, InstId)>,
    pub limit: nat,
}

/// The state of inference.
pub struct Run {
    pub g: Graph,
    pub inferred: Map<NameId, Seq<Seq<InstId>>>,
    pub fresh: usize,
}

/// The views of alternatives.
pub open spec fn alts(v: Vec<Vec<InstId>>) -> Seq<Seq<InstId>> {
    Seq::new(v@.len(), |i: int| v@[i]@)
}

/// The views of the alternatives of predicates.
pub open spec fn alts_map(m: Map<NameId, Vec<Vec<InstId>>>) -> Map<NameId, Seq<Seq<InstId>>> {
    Map::new(|n: NameId| m.contains_key(n), |n: NameId| alts(m[n]))
}

impl View for Program {
    type V = Env;

    open spec fn view(&self) -> Env {
        Env {
            paths: self.trie@,
            decls: alts_map(self.decls@),
            rules: self.rules@,
            limit: self.limit as nat,
        }
    }
}

/// The state of inference that `p` and the graph `g` make up.
pub open spec fn run_of(p: Progress, g: Graph) -> Run {
    Run { g, inferred: alts_map(p.inferred@), fresh: p.fresh }
}

/// All types of the alternatives are in the graph.
pub open spec fn alts_in(a: Seq<Seq<InstId>>, g: Graph) -> bool {
    forall|i: int| 0 <= i < a.len() ==> ids_below(#[trigger] a[i], g.nodes.len())
}

/// All types of the map are in the graph.
pub open spec fn types_in(m: Map<NameId, Seq<Seq<InstId>>>, g: Graph) -> bool {
    forall|n: NameId| #[trigger] m.contains_key(n) ==> alts_in(m[n], g)
}

impl Env {
    /// The program is one over the graph.
    pub open spec fn wf(self, g: Graph) -> bool {
        &&& types_in(self.decls, g)
        &&& forall|i: int|
            0 <= i < self.rules.len() ==> (#[trigger] self.rules[i]).0.0 < self.limit && g.has(
                self.rules[i].1,
            ) && g.node(self.rules[i].1) is Rule
    }

    /// Some rule defines the predicate.
    pub open spec fn defines(self, p: NameId) -> bool {
        exists|i: int| 0 <= i < self.rules.len() && (#[trigger] self.rules[i]).0 == p
    }
}

impl Run {
    /// The state is one over its graph.
    pub open spec fn wf(self) -> bool {
        self.g.wf() && types_in(self.inferred, self.g)
    }
}

/// What is valid stays valid when the graph grows.
pub proof fn lemma_types_grow(m: Map<NameId, Seq<Seq<InstId>>>, g: Graph, later: Graph)
    requires
        types_in(m, g),
        g.extended_by(later),
    ensures
        types_in(m, later),
{
    assert forall|n: NameId| #[trigger] m.contains_key(n) implies alts_in(m[n], later) by {
        lemma_alts_grow(m[n], g, later);
    }
}

pub proof fn lemma_alts_grow(a: Seq<Seq<InstId>>, g: Graph, later: Graph)
    requires
        alts_in(a, g),
        g.extended_by(later),
    ensures
        alts_in(a, later),
{
    assert forall|i: int| 0 <= i < a.len() implies ids_below(#[trigger] a[i], later.nodes.len()) by {
        lemma_ids_grow(a[i], g, later);
    }
}

pub proof fn lemma_env_grows(env: Env, g: Graph, later: Graph)
    requires
        env.wf(g),
        g.extended_by(later),
    ensures
        env.wf(later),
{
    lemma_types_grow(env.decls, g, later);
    assert forall|i: int| 0 <= i < env.rules.len() implies (#[trigger] env.rules[i]).0.0 < env.limit
        && later.has(env.rules[i].1) && later.node(env.rules[i].1) is Rule by {
        assert(g.nodes[env.rules[i].1.0 as int] == later.nodes[env.rules[i].1.0 as int]);
    }
}

/// How many of the first `n` names are not being visited.
pub open spec fn unvisited(visiting: Set<NameId>, n: nat) -> nat
    decreases n,
{
    if n == 0 {
        0
    } else {
        unvisited(visiting, (n - 1) as nat) + if visiting.contains(NameId((n - 1) as usize)) {
            0nat
        } else {
            1nat
        }
    }
}

/// Visiting one more name leaves fewer.
pub proof fn lemma_visit(visiting: Set<NameId>, p: NameId, n: nat)
    requires
        !visiting.contains(p),
        n <= usize::MAX,
    ensures
        p.0 < n ==> unvisited(visiting.insert(p), n) + 1 == unvisited(visiting, n),
        p.0 >= n ==> unvisited(visiting.insert(p), n) == unvisited(visiting, n),
    decreases n,
{
    if n > 0 {
        lemma_visit(visiting, p, (n - 1) as nat);
    }
}

/// The counter after `n`.
pub open spec fn next_count(n: usize) -> usize {
    if n == usize::MAX {
        0
    } else {
        (n + 1) as usize
    }
}

/// The name of the `n`-th fresh type variable.
pub open spec fn fresh_text(n: usize) -> Seq<char> {
    "?X"@ + decimal(n as nat)
}

/// The variables of the first `n` types.
pub open spec fn vars_of_all(g: Graph, types: Seq<InstId>, n: nat) -> Seq<NameId>
    decreases n,
{
    if n == 0 {
        Seq::empty()
    } else {
        vars_in(g, types[n - 1], vars_of_all(g, types, (n - 1) as nat))
    }
}

/// Fresh variables for the first `n` of `vars`: the graph that holds them, the next
/// counter, the substitution and the names of the fresh variables.
pub open spec fn skolem(g: Graph, fresh: usize, vars: Seq<NameId>, n: nat) -> (
    Graph,
    usize,
    Map<NameId, InstId>,
    Seq<NameId>,
)
    decreases n,
{
    if n == 0 {
        (g, fresh, Map::empty(), Seq::empty())
    } else {
        let (h, f, subst, names) = skolem(g, fresh, vars, (n - 1) as nat);
        let name = h.name_id(fresh_text(f));
        (
            h.with_name(fresh_text(f)).with_node(Node::Var(name)),
            next_count(f),
            subst.insert(vars[n - 1], h.next()),
            names.push(name),
        )
    }
}

/// The first `n` types with their variables replaced.
pub open spec fn substituted_all(g: Graph, types: Seq<InstId>, subst: Map<NameId, InstId>, n: nat) -> (Graph, Seq<InstId>)
    decreases n,
{
    if n == 0 {
        (g, Seq::empty())
    } else {
        let (h, ids) = substituted_all(g, types, subst, (n - 1) as nat);
        let (k, t) = substituted(h, h, types[n - 1], subst);
        (k, ids.push(t))
    }
}

/// The lower bounds of `a[i..]` and `b[i..]` after those in `so_far`; `None` once one
/// is empty.
pub open spec fn meets(
    g: Graph,
    ctx: Map<NameId, InstId>,
    a: Seq<InstId>,
    b: Seq<InstId>,
    i: int,
    so_far: Seq<InstId>,
) -> (Graph, Option<Seq<InstId>>)
    decreases a.len() - i,
{
    if i < 0 || i >= a.len() {
        (g, Some(so_far))
    } else {
        let (h, meet) = lower(g, ctx, seq![a[i], b[i]]);
        if is_fn(h, meet, FN_EMPTY_TYPE@) {
            (h, None)
        } else {
            meets(h, ctx, a, b, i + 1, so_far.push(meet))
        }
    }
}

/// What is known of the first `n` arguments of a subgoal: the type of a known
/// variable or of another term, the declared type of an unknown variable.
pub open spec fn arg_ranges(
    g: Graph,
    paths: Set<Seq<Seq<char>>>,
    st: Ranges,
    args: Seq<InstId>,
    alt: Seq<InstId>,
    n: nat,
) -> (Graph, Seq<InstId>)
    decreases n,
{
    if n == 0 {
        (g, Seq::empty())
    } else {
        let (h, ids) = arg_ranges(g, paths, st, args, alt, (n - 1) as nat);
        match h.node(args[n - 1]) {
            Node::Var(v) => match st.lookup(v) {
                Some(t) => (h, ids.push(t)),
                None => (h, ids.push(alt[n - 1])),
            },
            _ => {
                let (k, t) = arg_bound(h, h, paths, st, args[n - 1]);
                (k, ids.push(t))
            },
        }
    }
}

/// The types of the arguments of a subgoal under the alternative `alt`, whose type
/// variables are made fresh; `None` if the subgoal does not fit it.
pub open spec fn feasible_types(
    run: Run,
    paths: Set<Seq<Seq<char>>>,
    st: Ranges,
    args: Seq<InstId>,
    alt: Seq<InstId>,
) -> (Run, Option<Seq<InstId>>) {
    if alt.len() != args.len() {
        (run, None)
    } else {
        let (g1, known) = arg_ranges(run.g, paths, st, args, alt, args.len());
        let vars = vars_of_all(g1, alt, alt.len());
        let (g2, fresh, subst, names) = skolem(g1, run.fresh, vars, vars.len());
        let (g3, a) = substituted_all(g2, known, subst, known.len());
        let (g4, b) = substituted_all(g3, alt, subst, alt.len());
        let (g5, any) = name_node(g4, "/any"@);
        let (g6, types) = meets(g5, all_bound(names, any), a, b, 0, Seq::empty());
        (Run { g: g6, fresh, ..run }, types)
    }
}

/// The argument types under those of the first `n` alternatives that a subgoal fits.
pub open spec fn feasible(
    run: Run,
    paths: Set<Seq<Seq<char>>>,
    st: Ranges,
    args: Seq<InstId>,
    options: Seq<Seq<InstId>>,
    n: nat,
) -> (Run, Seq<Seq<InstId>>)
    decreases n,
{
    if n == 0 {
        (run, Seq::empty())
    } else {
        let (r, found) = feasible(run, paths, st, args, options, (n - 1) as nat);
        let (s, types) = feasible_types(r, paths, st, args, options[n - 1]);
        match types {
            Some(t) => (s, found.push(t)),
            None => (s, found),
        }
    }
}

/// What is known once `t` is seen to be the type of the term `arg`.
pub open spec fn bound_term(g: Graph, st: Ranges, arg: InstId, t: InstId) -> (Graph, Ranges) {
    match g.node(arg) {
        Node::Var(v) => refined(g, st, v, t),
        _ => (g, st),
    }
}

/// What is known once the first `n` arguments are seen to have these types.
pub open spec fn bound_terms(g: Graph, st: Ranges, args: Seq<InstId>, types: Seq<InstId>, n: nat) -> (Graph, Ranges)
    decreases n,
{
    if n == 0 {
        (g, st)
    } else {
        let (h, s) = bound_terms(g, st, args, types, (n - 1) as nat);
        bound_term(h, s, args[n - 1], types[n - 1])
    }
}

/// The smaller of two lengths.
pub open spec fn shorter(a: nat, b: nat) -> nat {
    if a < b {
        a
    } else {
        b
    }
}

/// A list with `x` in it: at the end, unless it is there already.
pub open spec fn added<T>(s: Seq<T>, x: T) -> Seq<T> {
    if s.contains(x) {
        s
    } else {
        s.push(x)
    }
}

/// A list with the first `n` of `xs` in it.
pub open spec fn added_all<T>(s: Seq<T>, xs: Seq<T>, n: nat) -> Seq<T>
    decreases n,
{
    if n == 0 {
        s
    } else {
        added(added_all(s, xs, (n - 1) as nat), xs[n - 1])
    }
}

/// What may be known once the arguments are seen to have the types of one of the first
/// `n` of `found`.
pub open spec fn bound_each(
    g: Graph,
    st: Ranges,
    args: Seq<InstId>,
    found: Seq<Seq<InstId>>,
    n: nat,
) -> (Graph, Seq<Ranges>)
    decreases n,
{
    if n == 0 {
        (g, Seq::empty())
    } else {
        let (h, so_far) = bound_each(g, st, args, found, (n - 1) as nat);
        let types = found[n - 1];
        let (k, s) = bound_terms(h, st, args, types, shorter(args.len(), types.len()));
        (k, added(so_far, s))
    }
}

/// What `:match_prefix(name, prefix)` tells.
pub open spec fn after_match_prefix(g: Graph, paths: Set<Seq<Seq<char>>>, args: Seq<InstId>, st: Ranges) -> (Graph, Ranges) {
    if args.len() != 2 {
        (g, st)
    } else {
        let (a, t) = arg_bound(g, g, paths, st, args[0]);
        let (b, prefix) = arg_bound(a, a, paths, st, args[1]);
        let (c, meet) = lower(b, Map::empty(), seq![t, prefix]);
        if is_fn(c, meet, FN_EMPTY_TYPE@) {
            (c, st)
        } else {
            let (d, s) = bound_term(c, st, args[0], meet);
            let (e, name) = name_node(d, "/name"@);
            bound_term(e, s, args[1], name)
        }
    }
}

/// What the value of `:match_field(struct, field, value)` tells of the value.
pub open spec fn after_field(
    g: Graph,
    paths: Set<Seq<Seq<char>>>,
    t: InstId,
    args: Seq<InstId>,
    st: Ranges,
) -> (Graph, Ranges) {
    match g.node(args[1]) {
        Node::Name(field) => if is_fn(g, t, FN_STRUCT@) || is_fn(g, t, FN_TAGGED_UNION@) || is_fn(
            g,
            t,
            FN_UNION@,
        ) {
            let (a, found) = field_deep(g, g, t, field);
            match found {
                Some(ft) => {
                    let (b, vt) = arg_bound(a, a, paths, st, args[2]);
                    let (c, meet) = lower(b, Map::empty(), seq![vt, ft]);
                    if is_fn(c, meet, FN_EMPTY_TYPE@) {
                        (c, st)
                    } else {
                        bound_term(c, st, args[2], meet)
                    }
                },
                None => (a, st),
            }
        } else {
            (g, st)
        },
        _ => (g, st),
    }
}

/// What `:match_field(struct, field, value)` tells.
pub open spec fn after_match_field(g: Graph, paths: Set<Seq<Seq<char>>>, args: Seq<InstId>, st: Ranges) -> (Graph, Ranges) {
    if args.len() != 3 {
        (g, st)
    } else {
        let (a, t) = arg_bound(g, g, paths, st, args[0]);
        let (b, s) = after_field(a, paths, t, args, st);
        let (c, any) = name_node(b, "/any"@);
        let (d, u) = bound_term(c, s, args[0], any);
        let (e, name) = name_node(d, "/name"@);
        bound_term(e, u, args[1], name)
    }
}

/// What is known once the term `arg` is seen to lie in the type `t`.
pub open spec fn after_member(g: Graph, paths: Set<Seq<Seq<char>>>, arg: InstId, t: InstId, st: Ranges) -> (Graph, Ranges) {
    let (a, known) = arg_bound(g, g, paths, st, arg);
    let (b, meet) = lower(a, Map::empty(), seq![known, t]);
    if is_fn(b, meet, FN_EMPTY_TYPE@) {
        (b, st)
    } else {
        bound_term(b, st, arg, meet)
    }
}

/// What `:match_entry(map, key, value)` tells.
pub open spec fn after_match_entry(g: Graph, paths: Set<Seq<Seq<char>>>, args: Seq<InstId>, st: Ranges) -> (Graph, Ranges) {
    if args.len() != 3 {
        (g, st)
    } else {
        let (a, t) = arg_bound(g, g, paths, st, args[0]);
        match args_of(a, t, FN_MAP@) {
            Some(kv) => if kv.len() == 2 {
                let (b, s) = after_member(a, paths, args[1], kv[0], st);
                after_member(b, paths, args[2], kv[1], s)
            } else {
                (a, st)
            },
            None => (a, st),
        }
    }
}

/// What `:list:member(element, list)` tells.
pub open spec fn after_list_member(g: Graph, paths: Set<Seq<Seq<char>>>, args: Seq<InstId>, st: Ranges) -> (Graph, Ranges) {
    if args.len() != 2 {
        (g, st)
    } else {
        let (a, t) = arg_bound(g, g, paths, st, args[1]);
        match args_of(a, t, FN_LIST@) {
            Some(e) => if e.len() > 0 {
                after_member(a, paths, args[0], e[0], st)
            } else {
                (a, st)
            },
            None => (a, st),
        }
    }
}

/// What the negation of `:match_prefix` tells: a union loses what the prefix covers.
pub open spec fn after_negation(g: Graph, paths: Set<Seq<Seq<char>>>, inner: InstId, st: Ranges) -> (Graph, Ranges) {
    match g.node(inner) {
        Node::Atom { predicate, args } => if g.name(predicate) == ":match_prefix"@ && args.len() >= 2 {
            match g.node(args[0]) {
                Node::Var(v) => {
                    let (a, bound) = arg_bound(g, g, paths, st, args[1]);
                    match st.lookup(v) {
                        Some(t) => if is_fn(a, t, FN_UNION@) {
                            let (b, rest) = without(a, bound, t);
                            if is_fn(b, rest, FN_EMPTY_TYPE@) {
                                (b, st)
                            } else {
                                (b, assigned(st, v, rest))
                            }
                        } else {
                            (a, st)
                        },
                        None => (a, st),
                    }
                },
                _ => (g, st),
            }
        } else {
            (g, st)
        },
        _ => (g, st),
    }
}

/// What an equality tells: a variable has the type of the other side.
pub open spec fn after_eq(g: Graph, paths: Set<Seq<Seq<char>>>, l: InstId, r: InstId, st: Ranges) -> (Graph, Ranges) {
    let (a, s) = match g.node(l) {
        Node::Var(v) => {
            let (b, t) = arg_bound(g, g, paths, st, r);
            refined(b, st, v, t)
        },
        _ => (g, st),
    };
    match g.node(r) {
        Node::Var(v) => {
            let (b, t) = arg_bound(a, a, paths, s, l);
            refined(b, s, v, t)
        },
        _ => (a, s),
    }
}

/// Whether no type variable is left in the types of the variables.
pub open spec fn settled(g: Graph, st: Ranges) -> bool {
    vars_of_all(g, st.types, st.types.len()).len() == 0
}

/// Whether two terms may be equal: their types have something in common, or are not settled.
pub open spec fn can_agree(g: Graph, paths: Set<Seq<Seq<char>>>, l: InstId, r: InstId, st: Ranges) -> (Graph, bool) {
    let (a, lt) = arg_bound(g, g, paths, st, l);
    let (b, rt) = arg_bound(a, a, paths, st, r);
    let (c, meet) = lower(b, Map::empty(), seq![lt, rt]);
    (c, !is_fn(c, meet, FN_EMPTY_TYPE@) || !settled(g, st))
}

/// What an inequality tells: the two sides have a type in common.
pub open spec fn after_ineq(g: Graph, paths: Set<Seq<Seq<char>>>, l: InstId, r: InstId, st: Ranges) -> (Graph, Ranges) {
    let (a, lt) = arg_bound(g, g, paths, st, l);
    let (b, rt) = arg_bound(a, a, paths, st, r);
    let (c, meet) = lower(b, Map::empty(), seq![lt, rt]);
    if is_fn(c, meet, FN_EMPTY_TYPE@) {
        (c, st)
    } else {
        let (d, s) = bound_term(c, st, l, meet);
        bound_term(d, s, r, meet)
    }
}

/// What may be known after the premise `p`, one case for each alternative of its
/// predicate that it fits, and whether the premise can hold at all.
pub open spec fn after_premise(env: Env, run: Run, visiting: Set<NameId>, p: InstId, st: Ranges) -> (Run, Seq<Ranges>, bool)
    decreases unvisited(visiting, env.limit), 2nat, 0nat,
    when env.limit <= usize::MAX && (forall|i: int|
        0 <= i < env.rules.len() ==> (#[trigger] env.rules[i]).0.0 < env.limit)
{
    let g = run.g;
    match g.node(p) {
        Node::Atom { predicate, args } => {
            let name = g.name(predicate);
            if name == ":match_prefix"@ {
                let (h, s) = after_match_prefix(g, env.paths, args, st);
                (Run { g: h, ..run }, seq![s], true)
            } else if name == ":match_field"@ {
                let (h, s) = after_match_field(g, env.paths, args, st);
                (Run { g: h, ..run }, seq![s], true)
            } else if name == ":match_entry"@ {
                let (h, s) = after_match_entry(g, env.paths, args, st);
                (Run { g: h, ..run }, seq![s], true)
            } else if name == ":list:member"@ {
                let (h, s) = after_list_member(g, env.paths, args, st);
                (Run { g: h, ..run }, seq![s], true)
            } else {
                let (r, found) = subgoal_types(env, run, visiting, predicate, args, st);
                if found.len() > 0 {
                    let (h, cases) = bound_each(r.g, st, args, found, found.len());
                    (Run { g: h, ..r }, cases, true)
                } else if env.decls.contains_key(predicate) && env.decls[predicate].len() > 0 {
                    let first = env.decls[predicate][0];
                    let (h, s) = bound_terms(r.g, st, args, first, shorter(args.len(), first.len()));
                    (Run { g: h, ..r }, seq![s], !settled(g, st))
                } else {
                    (r, seq![st], !env.defines(predicate) || !settled(g, st))
                }
            }
        },
        Node::NegAtom(inner) => {
            let (h, s) = after_negation(g, env.paths, inner, st);
            (Run { g: h, ..run }, seq![s], true)
        },
        Node::Eq(l, r) => {
            let (a, agree) = can_agree(g, env.paths, l, r, st);
            let (h, s) = after_eq(a, env.paths, l, r, st);
            (Run { g: h, ..run }, seq![s], agree)
        },
        Node::Ineq(l, r) => {
            let (h, s) = after_ineq(g, env.paths, l, r, st);
            (Run { g: h, ..run }, seq![s], true)
        },
        _ => (run, seq![st], true),
    }
}

/// What may be known after the premise `p` in the first `n` of `cases`: where it can hold,
/// and where it cannot.
pub open spec fn after_each(
    env: Env,
    run: Run,
    visiting: Set<NameId>,
    p: InstId,
    cases: Seq<Ranges>,
    n: nat,
) -> (Run, Seq<Ranges>, Seq<Ranges>)
    decreases unvisited(visiting, env.limit), 3nat, n,
    when env.limit <= usize::MAX && (forall|i: int|
        0 <= i < env.rules.len() ==> (#[trigger] env.rules[i]).0.0 < env.limit)
{
    if n == 0 {
        (run, Seq::empty(), Seq::empty())
    } else {
        let (r, yes, no) = after_each(env, run, visiting, p, cases, (n - 1) as nat);
        let (s, next, holds) = after_premise(env, r, visiting, p, cases[n - 1]);
        if holds {
            (s, added_all(yes, next, next.len()), no)
        } else {
            (s, yes, added_all(no, next, next.len()))
        }
    }
}

/// What may be known after the first `n` premises. Cases in which a premise cannot hold are
/// left out, unless there is no other.
pub open spec fn after_premises(env: Env, run: Run, visiting: Set<NameId>, premises: Seq<InstId>, n: nat) -> (Run, Seq<Ranges>)
    decreases unvisited(visiting, env.limit), 4nat, n,
    when env.limit <= usize::MAX && (forall|i: int|
        0 <= i < env.rules.len() ==> (#[trigger] env.rules[i]).0.0 < env.limit)
{
    if n == 0 {
        (run, seq![Ranges::none()])
    } else {
        let (r, cases) = after_premises(env, run, visiting, premises, (n - 1) as nat);
        let (s, yes, no) = after_each(env, r, visiting, premises[n - 1], cases, cases.len());
        if yes.len() > 0 {
            (s, yes)
        } else {
            (s, no)
        }
    }
}

/// What the first `n` transforms tell.
pub open spec fn after_transforms(g: Graph, paths: Set<Seq<Seq<char>>>, transforms: Seq<InstId>, st: Ranges, n: nat) -> (Graph, Ranges)
    decreases n,
{
    if n == 0 {
        (g, st)
    } else {
        let (h, s) = after_transforms(g, paths, transforms, st, (n - 1) as nat);
        match h.node(transforms[n - 1]) {
            Node::Transform { var: Some(v), app } => {
                let (k, t) = arg_bound(h, h, paths, s, app);
                refined(k, s, v, t)
            },
            _ => (h, s),
        }
    }
}

/// The arguments of an atom.
pub open spec fn atom_terms(g: Graph, atom: InstId) -> Seq<InstId> {
    match g.node(atom) {
        Node::Atom { args, .. } => args,
        _ => Seq::empty(),
    }
}

/// The predicate of an atom.
pub open spec fn predicate_of(g: Graph, atom: InstId) -> Option<NameId> {
    match g.node(atom) {
        Node::Atom { predicate, .. } => Some(predicate),
        _ => None,
    }
}

/// The types of the terms of a head in one case.
pub open spec fn head_case(
    g: Graph,
    paths: Set<Seq<Seq<char>>>,
    transforms: Seq<InstId>,
    terms: Seq<InstId>,
    st: Ranges,
) -> (Graph, Seq<InstId>) {
    let (h, s) = after_transforms(g, paths, transforms, st, transforms.len());
    arg_bounds(h, h, paths, s, terms, terms.len(), h.nodes.len())
}

/// The types that the terms of a head may have in the first `n` of `cases`.
pub open spec fn head_cases(
    g: Graph,
    paths: Set<Seq<Seq<char>>>,
    transforms: Seq<InstId>,
    terms: Seq<InstId>,
    cases: Seq<Ranges>,
    n: nat,
) -> (Graph, Seq<Seq<InstId>>)
    decreases n,
{
    if n == 0 {
        (g, Seq::empty())
    } else {
        let (h, so_far) = head_cases(g, paths, transforms, terms, cases, (n - 1) as nat);
        let (k, types) = head_case(h, paths, transforms, terms, cases[n - 1]);
        (k, added(so_far, types))
    }
}

/// The types that the arguments of the head of a rule may have.
pub open spec fn head_types(env: Env, run: Run, visiting: Set<NameId>, rule: InstId) -> (Run, Seq<Seq<InstId>>)
    decreases unvisited(visiting, env.limit), 5nat, 0nat,
    when env.limit <= usize::MAX && (forall|i: int|
        0 <= i < env.rules.len() ==> (#[trigger] env.rules[i]).0.0 < env.limit)
{
    match run.g.node(rule) {
        Node::Rule { head, premises, transform } => {
            let (r, cases) = after_premises(env, run, visiting, premises, premises.len());
            let terms = atom_terms(run.g, head);
            let (h, types) = head_cases(r.g, env.paths, transform, terms, cases, cases.len());
            (Run { g: h, ..r }, types)
        },
        _ => (run, Seq::empty()),
    }
}

/// The head types of those of the first `n` rules that define the predicate.
pub open spec fn rule_types(env: Env, run: Run, visiting: Set<NameId>, predicate: NameId, n: nat) -> (Run, Seq<Seq<InstId>>)
    decreases unvisited(visiting, env.limit), 6nat, n,
    when env.limit <= usize::MAX && n <= env.rules.len() && (forall|i: int|
        0 <= i < env.rules.len() ==> (#[trigger] env.rules[i]).0.0 < env.limit)
{
    if n == 0 {
        (run, Seq::empty())
    } else {
        let (r, found) = rule_types(env, run, visiting, predicate, (n - 1) as nat);
        if env.rules[n - 1].0 == predicate {
            let (s, types) = head_types(env, r, visiting, env.rules[n - 1].1);
            (s, added_all(found, types, types.len()))
        } else {
            (r, found)
        }
    }
}

/// The argument types of a subgoal: by declaration, by what was inferred, or by the
/// rules that define the predicate; all `/any` within the inference of the predicate
/// itself.
pub open spec fn subgoal_types(
    env: Env,
    run: Run,
    visiting: Set<NameId>,
    predicate: NameId,
    args: Seq<InstId>,
    st: Ranges,
) -> (Run, Seq<Seq<InstId>>)
    decreases unvisited(visiting, env.limit), 1nat, 0nat,
    when env.limit <= usize::MAX && (forall|i: int|
        0 <= i < env.rules.len() ==> (#[trigger] env.rules[i]).0.0 < env.limit)
{
    proof {
        if !visiting.contains(predicate) {
            lemma_visit(visiting, predicate, env.limit);
        }
    }
    if env.decls.contains_key(predicate) {
        let options = env.decls[predicate];
        feasible(run, env.paths, st, args, options, options.len())
    } else if run.inferred.contains_key(predicate) {
        let options = run.inferred[predicate];
        feasible(run, env.paths, st, args, options, options.len())
    } else if visiting.contains(predicate) {
        let (h, any) = name_node(run.g, "/any"@);
        (Run { g: h, ..run }, seq![Seq::new(args.len(), |i: int| any)])
    } else if !env.defines(predicate) {
        (run, Seq::empty())
    } else {
        let (r, options) = rule_types(
            env,
            run,
            visiting.insert(predicate),
            predicate,
            env.rules.len(),
        );
        if options.len() == 0 {
            (r, Seq::empty())
        } else {
            let s = Run { inferred: r.inferred.insert(predicate, options), ..r };
            feasible(s, env.paths, st, args, options, options.len())
        }
    }
}

/// Copies alternatives.
pub(crate) fn copy_alts(v: &Vec<Vec<InstId>>) -> (r: Vec<Vec<InstId>>)
    ensures
        alts(r) == alts(*v),
{
    let mut r: Vec<Vec<InstId>> = Vec::new();
    let mut i: usize = 0;
    while i < v.len()
        invariant
            i <= v@.len(),
            r@.len() == i,
            forall|j: int| 0 <= j < i ==> (#[trigger] r@[j])@ == v@[j]@,
        decreases v@.len() - i,
    {
        r.push(copy_ids(v[i].as_slice()));
        i += 1;
    }
    assert(alts(r) =~= alts(*v));
    r
}

/// A fresh type variable.
fn fresh_var(ir: &mut Ir, fresh: &mut usize) -> (name: NameId)
    requires
        old(ir)@.wf(),
    ensures
        final(ir)@.wf(),
        final(ir)@ == old(ir)@.with_name(fresh_text(*old(fresh))),
        name == old(ir)@.name_id(fresh_text(*old(fresh))),
        final(ir)@.has_name(name),
        *final(fresh) == next_count(*old(fresh)),
        old(ir)@.extended_by(final(ir)@),
{
    let mut text = "?X".to_owned();
    push_decimal(&mut text, *fresh as u64);
    *fresh = if *fresh == usize::MAX {
        0
    } else {
        *fresh + 1
    };
    ir.intern_name(text.as_str())
}

/// Notes that `t` is the type of the term `arg`.
fn bind_term(ir: &mut Ir, st: &mut InferState, arg: InstId, t: InstId)
    requires
        old(ir)@.wf(),
        old(ir)@.has(arg),
        old(ir)@.has(t),
        old(st)@.wf(old(ir)@),
    ensures
        final(ir)@.wf(),
        (final(ir)@, final(st)@) == bound_term(old(ir)@, old(st)@, arg, t),
        final(st)@.wf(final(ir)@),
        old(ir)@.extended_by(final(ir)@),
{
    let mut var: Option<NameId> = None;
    if let Inst::Var(v) = ir.get(arg) {
        var = Some(*v);
    }
    if let Some(v) = var {
        st.add_or_refine_with_ir(ir, v, t);
    }
}

/// Notes the types of the arguments of a subgoal.
fn bind_terms(ir: &mut Ir, st: &mut InferState, args: &Vec<InstId>, types: &Vec<InstId>)
    requires
        old(ir)@.wf(),
        ids_below(args@, old(ir)@.nodes.len()),
        ids_below(types@, old(ir)@.nodes.len()),
        old(st)@.wf(old(ir)@),
    ensures
        final(ir)@.wf(),
        (final(ir)@, final(st)@) == bound_terms(
            old(ir)@,
            old(st)@,
            args@,
            types@,
            shorter(args@.len(), types@.len()),
        ),
        final(st)@.wf(final(ir)@),
        old(ir)@.extended_by(final(ir)@),
{
    let ghost g = ir@;
    let ghost s = st@;
    let n: usize = if args.len() < types.len() {
        args.len()
    } else {
        types.len()
    };
    let mut i: usize = 0;
    while i < n
        invariant
            ir@.wf(),
            g.extended_by(ir@),
            i <= n,
            st@.wf(ir@),
            (ir@, st@) == bound_terms(g, s, args@, types@, i as nat),
        decreases n - i,
    {
        bind_term(ir, st, args[i], types[i]);
        i += 1;
    }
}

/// The types of the arguments of a subgoal, where they are known.
fn ranges_of_args(ir: &mut Ir, trie: &NameTrie, st: &InferState, args: &Vec<InstId>, alt: &Vec<InstId>) -> (r: Vec<InstId>)
    requires
        old(ir)@.wf(),
        ids_below(args@, old(ir)@.nodes.len()),
        ids_below(alt@, old(ir)@.nodes.len()),
        args@.len() == alt@.len(),
        st@.wf(old(ir)@),
    ensures
        final(ir)@.wf(),
        (final(ir)@, r@) == arg_ranges(old(ir)@, trie@, st@, args@, alt@, args@.len()),
        r@.len() == args@.len(),
        ids_below(r@, final(ir)@.nodes.len()),
        old(ir)@.extended_by(final(ir)@),
{
    let ghost g = ir@;
    let mut r: Vec<InstId> = Vec::new();
    let mut n: usize = 0;
    while n < args.len()
        invariant
            ir@.wf(),
            g.extended_by(ir@),
            n <= args@.len(),
            st@.wf(ir@),
            r@.len() == n,
            (ir@, r@) == arg_ranges(g, trie@, st@, args@, alt@, n as nat),
            ids_below(r@, ir@.nodes.len()),
        decreases args@.len() - n,
    {
        let mut var: Option<NameId> = None;
        if let Inst::Var(v) = ir.get(args[n]) {
            var = Some(*v);
        }
        match var {
            Some(v) => {
                match st.lookup(v) {
                    Some(t) => {
                        r.push(t);
                    },
                    None => {
                        r.push(alt[n]);
                    },
                }
            },
            None => {
                let t = bound_of_arg(ir, trie, st, args[n]);
                r.push(t);
            },
        }
        n += 1;
    }
    r
}

/// Replaces the variables of types.
fn subst_all(ir: &mut Ir, types: &Vec<InstId>, subst: &NameMap<InstId>) -> (r: Vec<InstId>)
    requires
        old(ir)@.wf(),
        ids_below(types@, old(ir)@.nodes.len()),
        forall|v: NameId| #[trigger] subst@.contains_key(v) ==> old(ir)@.has(subst@[v]),
    ensures
        final(ir)@.wf(),
        (final(ir)@, r@) == substituted_all(old(ir)@, types@, subst@, types@.len()),
        r@.len() == types@.len(),
        ids_below(r@, final(ir)@.nodes.len()),
        old(ir)@.extended_by(final(ir)@),
{
    let ghost g = ir@;
    let mut r: Vec<InstId> = Vec::new();
    let mut n: usize = 0;
    while n < types.len()
        invariant
            ir@.wf(),
            g.extended_by(ir@),
            n <= types@.len(),
            r@.len() == n,
            (ir@, r@) == substituted_all(g, types@, subst@, n as nat),
            ids_below(r@, ir@.nodes.len()),
        decreases types@.len() - n,
    {
        let t = apply_subst(ir, types[n], subst);
        r.push(t);
        n += 1;
    }
    r
}

/// The context that binds each name to `bound`.
pub(crate) fn bind_all(names: &Vec<NameId>, bound: InstId) -> (ctx: TypeContext)
    ensures
        ctx@ == all_bound(names@, bound),
{
    let mut ctx = TypeContext::new();
    let mut i: usize = 0;
    assert(ctx@ =~= all_bound(names@.take(0), bound));
    while i < names.len()
        invariant
            i <= names@.len(),
            ctx@ == all_bound(names@.take(i as int), bound),
        decreases names@.len() - i,
    {
        ctx.insert(names[i], bound);
        assert forall|v: NameId| #[trigger]
            ctx@.contains_key(v) == all_bound(names@.take(i + 1), bound).contains_key(v) by {
            if names@.take(i as int).contains(v) {
                let j = names@.take(i as int).index_of(v);
                assert(names@.take(i + 1)[j] == v);
            }
            assert(names@.take(i + 1)[i as int] == names@[i as int]);
            if names@.take(i + 1).contains(v) && v != names@[i as int] {
                let j = names@.take(i + 1).index_of(v);
                assert(names@.take(i as int)[j] == v);
            }
        }
        assert(ctx@ =~= all_bound(names@.take(i + 1), bound));
        i += 1;
    }
    assert(names@.take(names@.len() as int) =~= names@);
    ctx
}

/// The variables of types.
pub(crate) fn collect_all_vars(ir: &Ir, types: &Vec<InstId>) -> (r: Vec<NameId>)
    requires
        ir@.wf(),
        ids_below(types@, ir@.nodes.len()),
    ensures
        r@ == vars_of_all(ir@, types@, types@.len()),
{
    let mut r: Vec<NameId> = Vec::new();
    let mut n: usize = 0;
    while n < types.len()
        invariant
            n <= types@.len(),
            r@ == vars_of_all(ir@, types@, n as nat),
        decreases types@.len() - n,
    {
        collect_vars(ir, types[n], &mut r);
        n += 1;
    }
    r
}

/// The types of the arguments of a subgoal under one alternative.
fn feasible_alternative(
    ir: &mut Ir,
    fresh: &mut usize,
    trie: &NameTrie,
    st: &InferState,
    args: &Vec<InstId>,
    alt: &Vec<InstId>,
    Ghost(inferred): Ghost<Map<NameId, Seq<Seq<InstId>>>>,
) -> (r: Option<Vec<InstId>>)
    requires
        old(ir)@.wf(),
        ids_below(args@, old(ir)@.nodes.len()),
        ids_below(alt@, old(ir)@.nodes.len()),
        st@.wf(old(ir)@),
    ensures
        final(ir)@.wf(),
        old(ir)@.extended_by(final(ir)@),
        ({
            let (run, types) = feasible_types(
                Run { g: old(ir)@, inferred, fresh: *old(fresh) },
                trie@,
                st@,
                args@,
                alt@,
            );
            &&& run == Run { g: final(ir)@, inferred, fresh: *final(fresh) }
            &&& match types {
                Some(t) => r matches Some(v) && v@ == t && ids_below(t, final(ir)@.nodes.len()),
                None => r is None,
            }
        }),
{
    let ghost g0 = ir@;
    if alt.len() != args.len() {
        return None;
    }
    let known = ranges_of_args(ir, trie, st, args, alt);
    let ghost g1 = ir@;
    proof {
        lemma_ids_grow(alt@, g0, g1);
    }
    let vars = collect_all_vars(ir, alt);
    let mut subst: NameMap<InstId> = NameMap::new();
    let mut names: Vec<NameId> = Vec::new();
    let ghost f0 = *fresh;
    let mut n: usize = 0;
    assert(subst@ =~= Map::<NameId, InstId>::empty());
    while n < vars.len()
        invariant
            ir@.wf(),
            g1.extended_by(ir@),
            n <= vars@.len(),
            (ir@, *fresh, subst@, names@) == skolem(g1, f0, vars@, n as nat),
            forall|v: NameId| #[trigger] subst@.contains_key(v) ==> ir@.has(subst@[v]),
        decreases vars@.len() - n,
    {
        let name = fresh_var(ir, fresh);
        let id = ir.add_inst(Inst::Var(name));
        subst.insert(vars[n], id);
        names.push(name);
        n += 1;
    }
    let ghost g2 = ir@;
    proof {
        lemma_ids_grow(known@, g1, g2);
        lemma_ids_grow(alt@, g1, g2);
    }
    let a = subst_all(ir, &known, &subst);
    let ghost g3 = ir@;
    proof {
        lemma_ids_grow(alt@, g2, g3);
    }
    let b = subst_all(ir, alt, &subst);
    let ghost g4 = ir@;
    let any = find_or_create_name(ir, "/any");
    let ghost g5 = ir@;
    proof {
        lemma_ids_grow(a@, g3, g4);
        lemma_ids_grow(a@, g4, g5);
        lemma_ids_grow(b@, g4, g5);
    }
    let ctx = bind_all(&names, any);
    proof {
        lemma_grounded_names(g5, ctx@);
    }
    let mut types: Vec<InstId> = Vec::new();
    let mut i: usize = 0;
    assert(types@ =~= Seq::<InstId>::empty());
    while i < a.len()
        invariant
            ir@.wf(),
            g5.extended_by(ir@),
            i <= a@.len(),
            meets(g5, ctx@, a@, b@, 0, Seq::empty()) == meets(ir@, ctx@, a@, b@, i as int, types@),
            ids_below(types@, ir@.nodes.len()),
        decreases a@.len() - i,
    {
        proof {
            lemma_grounded_grows(g5, ir@, ctx@);
        }
        let both: Vec<InstId> = vec![a[i], b[i]];
        assert(both@ =~= seq![a@[i as int], b@[i as int]]);
        let meet = lower_bound(ir, &ctx, both.as_slice());
        if is_empty_type(ir, meet) {
            return None;
        }
        types.push(meet);
        i += 1;
    }
    Some(types)
}

/// Finds the alternatives that a subgoal fits, and the types of its arguments under
/// each of them.
///
/// The type variables of an alternative are made fresh. An argument fits if the
/// lower bound of what is known of it and of the declared type is not empty.
fn feasible_alternatives(
    ir: &mut Ir,
    fresh: &mut usize,
    trie: &NameTrie,
    st: &InferState,
    args: &Vec<InstId>,
    options: &Vec<Vec<InstId>>,
    Ghost(inferred): Ghost<Map<NameId, Seq<Seq<InstId>>>>,
) -> (r: Vec<Vec<InstId>>)
    requires
        old(ir)@.wf(),
        ids_below(args@, old(ir)@.nodes.len()),
        alts_in(alts(*options), old(ir)@),
        st@.wf(old(ir)@),
    ensures
        final(ir)@.wf(),
        old(ir)@.extended_by(final(ir)@),
        (Run { g: final(ir)@, inferred, fresh: *final(fresh) }, alts(r)) == feasible(
            Run { g: old(ir)@, inferred, fresh: *old(fresh) },
            trie@,
            st@,
            args@,
            alts(*options),
            alts(*options).len(),
        ),
        alts_in(alts(r), final(ir)@),
{
    let ghost g = ir@;
    let ghost start = Run { g, inferred, fresh: *fresh };
    let mut r: Vec<Vec<InstId>> = Vec::new();
    let mut n: usize = 0;
    assert(alts(r) =~= Seq::<Seq<InstId>>::empty());
    while n < options.len()
        invariant
            ir@.wf(),
            g.extended_by(ir@),
            n <= options@.len(),
            (Run { g: ir@, inferred, fresh: *fresh }, alts(r)) == feasible(
                start,
                trie@,
                st@,
                args@,
                alts(*options),
                n as nat,
            ),
            alts_in(alts(r), ir@),
        decreases options@.len() - n,
    {
        let ghost before = ir@;
        proof {
            lemma_ids_grow(args@, g, before);
            lemma_ranges_grow(st@, g, before);
            assert(alts(*options)[n as int] == options@[n as int]@);
            lemma_ids_grow(options@[n as int]@, g, before);
        }
        let ghost so_far = alts(r);
        match feasible_alternative(ir, fresh, trie, st, args, &options[n], Ghost(inferred)) {
            Some(t) => {
                proof {
                    lemma_alts_grow(so_far, before, ir@);
                }
                r.push(t);
                assert(alts(r) =~= so_far.push(t@));
            },
            None => {
                proof {
                    lemma_alts_grow(so_far, before, ir@);
                }
            },
        }
        n += 1;
    }
    r
}

/// Inference for `:match_prefix(name, prefix)`.
fn infer_match_prefix(ir: &mut Ir, trie: &NameTrie, args: &Vec<InstId>, st: &mut InferState)
    requires
        old(ir)@.wf(),
        ids_below(args@, old(ir)@.nodes.len()),
        old(st)@.wf(old(ir)@),
    ensures
        final(ir)@.wf(),
        (final(ir)@, final(st)@) == after_match_prefix(old(ir)@, trie@, args@, old(st)@),
        final(st)@.wf(final(ir)@),
        old(ir)@.extended_by(final(ir)@),
{
    if args.len() != 2 {
        return;
    }
    let t = bound_of_arg(ir, trie, st, args[0]);
    let prefix = bound_of_arg(ir, trie, st, args[1]);
    let meet = meet_of(ir, t, prefix);
    if !is_empty_type(ir, meet) {
        bind_term(ir, st, args[0], meet);
        let name = find_or_create_name(ir, "/name");
        bind_term(ir, st, args[1], name);
    }
}

/// What the field that `:match_field` looks at tells of the value.
fn infer_field(ir: &mut Ir, trie: &NameTrie, t: InstId, args: &Vec<InstId>, st: &mut InferState)
    requires
        old(ir)@.wf(),
        old(ir)@.has(t),
        args@.len() == 3,
        ids_below(args@, old(ir)@.nodes.len()),
        old(st)@.wf(old(ir)@),
    ensures
        final(ir)@.wf(),
        (final(ir)@, final(st)@) == after_field(old(ir)@, trie@, t, args@, old(st)@),
        final(st)@.wf(final(ir)@),
        old(ir)@.extended_by(final(ir)@),
{
    let mut field: Option<NameId> = None;
    assert(ir@.nodes[args@[1].0 as int].fits(
        args@[1].0 as nat,
        ir@.names.len(),
        ir@.strings.len(),
    ));
    if let Inst::Name(n) = ir.get(args[1]) {
        field = Some(*n);
    }
    if let Some(n) = field {
        if is_struct_type(ir, t) || is_tagged_union_type(ir, t) || is_union_type(ir, t) {
            if let Some(ft) = struct_type_field_deep(ir, t, n) {
                let vt = bound_of_arg(ir, trie, st, args[2]);
                let meet = meet_of(ir, vt, ft);
                if !is_empty_type(ir, meet) {
                    bind_term(ir, st, args[2], meet);
                }
            }
        }
    }
}

/// Inference for `:match_field(struct, field, value)`.
#[verifier::rlimit(60)]
#[verifier::spinoff_prover]
fn infer_match_field(ir: &mut Ir, trie: &NameTrie, args: &Vec<InstId>, st: &mut InferState)
    requires
        old(ir)@.wf(),
        ids_below(args@, old(ir)@.nodes.len()),
        old(st)@.wf(old(ir)@),
    ensures
        final(ir)@.wf(),
        (final(ir)@, final(st)@) == after_match_field(old(ir)@, trie@, args@, old(st)@),
        final(st)@.wf(final(ir)@),
        old(ir)@.extended_by(final(ir)@),
{
    if args.len() != 3 {
        return;
    }
    let t = bound_of_arg(ir, trie, st, args[0]);
    infer_field(ir, trie, t, args, st);
    let any = find_or_create_name(ir, "/any");
    bind_term(ir, st, args[0], any);
    let name = find_or_create_name(ir, "/name");
    bind_term(ir, st, args[1], name);
}

/// Notes that the term lies in the type.
fn infer_member(ir: &mut Ir, trie: &NameTrie, arg: InstId, t: InstId, st: &mut InferState)
    requires
        old(ir)@.wf(),
        old(ir)@.has(arg),
        old(ir)@.has(t),
        old(st)@.wf(old(ir)@),
    ensures
        final(ir)@.wf(),
        (final(ir)@, final(st)@) == after_member(old(ir)@, trie@, arg, t, old(st)@),
        final(st)@.wf(final(ir)@),
        old(ir)@.extended_by(final(ir)@),
{
    let known = bound_of_arg(ir, trie, st, arg);
    let meet = meet_of(ir, known, t);
    if !is_empty_type(ir, meet) {
        bind_term(ir, st, arg, meet);
    }
}

/// Inference for `:match_entry(map, key, value)`.
fn infer_match_entry(ir: &mut Ir, trie: &NameTrie, args: &Vec<InstId>, st: &mut InferState)
    requires
        old(ir)@.wf(),
        ids_below(args@, old(ir)@.nodes.len()),
        old(st)@.wf(old(ir)@),
    ensures
        final(ir)@.wf(),
        (final(ir)@, final(st)@) == after_match_entry(old(ir)@, trie@, args@, old(st)@),
        final(st)@.wf(final(ir)@),
        old(ir)@.extended_by(final(ir)@),
{
    if args.len() != 3 {
        return;
    }
    let t = bound_of_arg(ir, trie, st, args[0]);
    proof {
        crate::type_ops::lemma_parts_below(ir@, t);
    }
    if let Some((key, value)) = map_type_args(ir, t) {
        infer_member(ir, trie, args[1], key, st);
        infer_member(ir, trie, args[2], value, st);
    }
}

/// Inference for `:list:member(element, list)`.
fn infer_list_member(ir: &mut Ir, trie: &NameTrie, args: &Vec<InstId>, st: &mut InferState)
    requires
        old(ir)@.wf(),
        ids_below(args@, old(ir)@.nodes.len()),
        old(st)@.wf(old(ir)@),
    ensures
        final(ir)@.wf(),
        (final(ir)@, final(st)@) == after_list_member(old(ir)@, trie@, args@, old(st)@),
        final(st)@.wf(final(ir)@),
        old(ir)@.extended_by(final(ir)@),
{
    if args.len() != 2 {
        return;
    }
    let t = bound_of_arg(ir, trie, st, args[1]);
    proof {
        crate::type_ops::lemma_parts_below(ir@, t);
    }
    if let Some(elem) = list_type_arg(ir, t) {
        infer_member(ir, trie, args[0], elem, st);
    }
}

/// Inference for a negated atom.
fn infer_negation(ir: &mut Ir, trie: &NameTrie, inner: InstId, st: &mut InferState)
    requires
        old(ir)@.wf(),
        old(ir)@.has(inner),
        old(st)@.wf(old(ir)@),
    ensures
        final(ir)@.wf(),
        (final(ir)@, final(st)@) == after_negation(old(ir)@, trie@, inner, old(st)@),
        final(st)@.wf(final(ir)@),
        old(ir)@.extended_by(final(ir)@),
{
    let mut found: Option<(NameId, InstId)> = None;
    assert(ir@.nodes[inner.0 as int].fits(inner.0 as nat, ir@.names.len(), ir@.strings.len()));
    if let Inst::Atom { predicate, args } = ir.get(inner) {
        if str_eq(ir.resolve_name(*predicate), ":match_prefix") && args.len() >= 2 {
            assert(ir@.has(args@[0]) && ir@.has(args@[1]));
            if let Inst::Var(v) = ir.get(args[0]) {
                found = Some((*v, args[1]));
            }
        }
    }
    if let Some((v, prefix)) = found {
        let bound = bound_of_arg(ir, trie, st, prefix);
        if let Some(t) = st.lookup(v) {
            if is_union_type(ir, t) {
                let rest = remove_from_union_type(ir, bound, t);
                if !is_empty_type(ir, rest) {
                    st.set_var(v, rest);
                }
            }
        }
    }
}

/// Inference for an equality.
fn infer_eq(ir: &mut Ir, trie: &NameTrie, left: InstId, right: InstId, st: &mut InferState)
    requires
        old(ir)@.wf(),
        old(ir)@.has(left),
        old(ir)@.has(right),
        old(st)@.wf(old(ir)@),
    ensures
        final(ir)@.wf(),
        (final(ir)@, final(st)@) == after_eq(old(ir)@, trie@, left, right, old(st)@),
        final(st)@.wf(final(ir)@),
        old(ir)@.extended_by(final(ir)@),
{
    let ghost g = ir@;
    let mut lv: Option<NameId> = None;
    let mut rv: Option<NameId> = None;
    if let Inst::Var(v) = ir.get(left) {
        lv = Some(*v);
    }
    if let Inst::Var(v) = ir.get(right) {
        rv = Some(*v);
    }
    if let Some(v) = lv {
        let t = bound_of_arg(ir, trie, st, right);
        st.add_or_refine_with_ir(ir, v, t);
    }
    if let Some(v) = rv {
        let t = bound_of_arg(ir, trie, st, left);
        st.add_or_refine_with_ir(ir, v, t);
    }
}

/// Whether no type variable is left in what is known of the variables.
fn is_settled(ir: &Ir, st: &InferState) -> (r: bool)
    requires
        ir@.wf(),
        st@.wf(ir@),
    ensures
        r == settled(ir@, st@),
{
    let vars = collect_all_vars(ir, &st.var_types);
    vars.len() == 0
}

/// Whether two terms may be equal.
fn may_agree(ir: &mut Ir, trie: &NameTrie, left: InstId, right: InstId, st: &InferState) -> (r: bool)
    requires
        old(ir)@.wf(),
        old(ir)@.has(left),
        old(ir)@.has(right),
        st@.wf(old(ir)@),
    ensures
        final(ir)@.wf(),
        (final(ir)@, r) == can_agree(old(ir)@, trie@, left, right, st@),
        st@.wf(final(ir)@),
        old(ir)@.extended_by(final(ir)@),
{
    let ghost g = ir@;
    let known = is_settled(ir, st);
    let lt = bound_of_arg(ir, trie, st, left);
    let rt = bound_of_arg(ir, trie, st, right);
    let meet = meet_of(ir, lt, rt);
    proof {
        lemma_ranges_grow(st@, g, ir@);
    }
    !is_empty_type(ir, meet) || !known
}

/// Inference for an inequality.
fn infer_ineq(ir: &mut Ir, trie: &NameTrie, left: InstId, right: InstId, st: &mut InferState)
    requires
        old(ir)@.wf(),
        old(ir)@.has(left),
        old(ir)@.has(right),
        old(st)@.wf(old(ir)@),
    ensures
        final(ir)@.wf(),
        (final(ir)@, final(st)@) == after_ineq(old(ir)@, trie@, left, right, old(st)@),
        final(st)@.wf(final(ir)@),
        old(ir)@.extended_by(final(ir)@),
{
    let lt = bound_of_arg(ir, trie, st, left);
    let rt = bound_of_arg(ir, trie, st, right);
    let meet = meet_of(ir, lt, rt);
    if !is_empty_type(ir, meet) {
        bind_term(ir, st, left, meet);
        bind_term(ir, st, right, meet);
    }
}

/// Whether some rule defines the predicate.
fn is_defined(program: &Program, predicate: NameId) -> (r: bool)
    ensures
        r == program@.defines(predicate),
{
    let mut i: usize = 0;
    while i < program.rules.len()
        invariant
            i <= program.rules@.len(),
            forall|j: int| 0 <= j < i ==> (#[trigger] program@.rules[j]).0 != predicate,
        decreases program.rules@.len() - i,
    {
        assert(program@.rules[i as int] == program.rules@[i as int]);
        if program.rules[i].0 == predicate {
            return true;
        }
        i += 1;
    }
    false
}

/// What the state of inference is and stays.
pub open spec fn ready(program: Program, progress: Progress, g: Graph) -> bool {
    &&& program@.wf(g)
    &&& run_of(progress, g).wf()
}

/// The models of states.
pub open spec fn states(v: Seq<InferState>) -> Seq<Ranges> {
    Seq::new(v.len(), |i: int| v[i]@)
}

/// Every case is one over the graph.
pub open spec fn states_in(a: Seq<Ranges>, g: Graph) -> bool {
    forall|i: int| 0 <= i < a.len() ==> (#[trigger] a[i]).wf(g)
}

proof fn lemma_states_grow(a: Seq<Ranges>, g: Graph, later: Graph)
    requires
        states_in(a, g),
        g.extended_by(later),
    ensures
        states_in(a, later),
{
    assert forall|i: int| 0 <= i < a.len() implies (#[trigger] a[i]).wf(later) by {
        lemma_ranges_grow(a[i], g, later);
    }
}

/// Whether two lists of ids are the same.
fn same_ids(a: &Vec<InstId>, b: &Vec<InstId>) -> (r: bool)
    ensures
        r == (a@ == b@),
{
    if a.len() != b.len() {
        return false;
    }
    let mut i: usize = 0;
    while i < a.len()
        invariant
            i <= a@.len(),
            a@.len() == b@.len(),
            forall|j: int| 0 <= j < i ==> a@[j] == b@[j],
        decreases a@.len() - i,
    {
        if a[i] != b[i] {
            assert(a@[i as int] != b@[i as int]);
            return false;
        }
        i += 1;
    }
    assert(a@ =~= b@);
    true
}

/// Whether two states know the same.
fn same_state(a: &InferState, b: &InferState) -> (r: bool)
    ensures
        r == (a@ == b@),
{
    if a.used_vars.len() != b.used_vars.len() {
        return false;
    }
    let mut i: usize = 0;
    while i < a.used_vars.len()
        invariant
            i <= a.used_vars@.len(),
            a.used_vars@.len() == b.used_vars@.len(),
            forall|j: int| 0 <= j < i ==> a.used_vars@[j] == b.used_vars@[j],
        decreases a.used_vars@.len() - i,
    {
        if a.used_vars[i] != b.used_vars[i] {
            assert(a@.vars[i as int] != b@.vars[i as int]);
            return false;
        }
        i += 1;
    }
    assert(a@.vars =~= b@.vars);
    same_ids(&a.var_types, &b.var_types)
}

/// Copies a state.
fn copy_state(st: &InferState) -> (r: InferState)
    ensures
        r@ == st@,
{
    let mut vars: Vec<NameId> = Vec::new();
    let mut i: usize = 0;
    while i < st.used_vars.len()
        invariant
            i <= st.used_vars@.len(),
            vars@ == st.used_vars@.take(i as int),
        decreases st.used_vars@.len() - i,
    {
        vars.push(st.used_vars[i]);
        i += 1;
        assert(vars@ =~= st.used_vars@.take(i as int));
    }
    assert(vars@ =~= st.used_vars@);
    InferState { used_vars: vars, var_types: copy_ids(st.var_types.as_slice()) }
}

/// Adds a state to a list, unless it is there.
fn add_state(list: &mut Vec<InferState>, st: InferState, Ghost(g): Ghost<Graph>)
    requires
        states_in(states(old(list)@), g),
        st@.wf(g),
    ensures
        states(final(list)@) == added(states(old(list)@), st@),
        states_in(states(final(list)@), g),
{
    let ghost before = states(list@);
    let mut i: usize = 0;
    while i < list.len()
        invariant
            i <= list@.len(),
            list@ == old(list)@,
            before == states(list@),
            forall|j: int| 0 <= j < i ==> #[trigger] before[j] != st@,
        decreases list@.len() - i,
    {
        assert(before[i as int] == list@[i as int]@);
        if same_state(&list[i], &st) {
            assert(before.contains(st@));
            return;
        }
        i += 1;
    }
    assert(!before.contains(st@));
    list.push(st);
    assert(states(list@) =~= before.push(st@));
}

/// Adds states to a list, each unless it is there.
fn add_all_states(list: &mut Vec<InferState>, more: Vec<InferState>, Ghost(g): Ghost<Graph>)
    requires
        states_in(states(old(list)@), g),
        states_in(states(more@), g),
    ensures
        states(final(list)@) == added_all(states(old(list)@), states(more@), more@.len()),
        states_in(states(final(list)@), g),
{
    let ghost before = states(list@);
    let mut i: usize = 0;
    while i < more.len()
        invariant
            i <= more@.len(),
            states(list@) == added_all(before, states(more@), i as nat),
            states_in(states(list@), g),
        decreases more@.len() - i,
    {
        assert(states(more@)[i as int] == more@[i as int]@);
        add_state(list, copy_state(&more[i]), Ghost(g));
        i += 1;
    }
}

/// Adds types to a list, unless they are there.
fn add_types(list: &mut Vec<Vec<InstId>>, types: Vec<InstId>, Ghost(g): Ghost<Graph>)
    requires
        alts_in(alts(*old(list)), g),
        ids_below(types@, g.nodes.len()),
    ensures
        alts(*final(list)) == added(alts(*old(list)), types@),
        alts_in(alts(*final(list)), g),
{
    let ghost before = alts(*list);
    let mut i: usize = 0;
    while i < list.len()
        invariant
            i <= list@.len(),
            *list == *old(list),
            before == alts(*list),
            forall|j: int| 0 <= j < i ==> #[trigger] before[j] != types@,
        decreases list@.len() - i,
    {
        assert(before[i as int] == list@[i as int]@);
        if same_ids(&list[i], &types) {
            assert(before.contains(types@));
            return;
        }
        i += 1;
    }
    assert(!before.contains(types@));
    list.push(types);
    assert(alts(*list) =~= before.push(types@));
}

/// Adds types to a list, each unless they are there.
fn add_all_types(list: &mut Vec<Vec<InstId>>, more: Vec<Vec<InstId>>, Ghost(g): Ghost<Graph>)
    requires
        alts_in(alts(*old(list)), g),
        alts_in(alts(more), g),
    ensures
        alts(*final(list)) == added_all(alts(*old(list)), alts(more), alts(more).len()),
        alts_in(alts(*final(list)), g),
{
    let ghost before = alts(*list);
    let mut i: usize = 0;
    while i < more.len()
        invariant
            i <= more@.len(),
            alts(*list) == added_all(before, alts(more), i as nat),
            alts_in(alts(*list), g),
        decreases more@.len() - i,
    {
        assert(alts(more)[i as int] == more@[i as int]@);
        add_types(list, copy_ids(more[i].as_slice()), Ghost(g));
        i += 1;
    }
}

/// Notes the types of the arguments of a subgoal, one case for each alternative.
fn bind_each(ir: &mut Ir, st: &InferState, args: &Vec<InstId>, found: &Vec<Vec<InstId>>) -> (r: Vec<InferState>)
    requires
        old(ir)@.wf(),
        ids_below(args@, old(ir)@.nodes.len()),
        alts_in(alts(*found), old(ir)@),
        st@.wf(old(ir)@),
    ensures
        final(ir)@.wf(),
        (final(ir)@, states(r@)) == bound_each(
            old(ir)@,
            st@,
            args@,
            alts(*found),
            alts(*found).len(),
        ),
        states_in(states(r@), final(ir)@),
        old(ir)@.extended_by(final(ir)@),
{
    let ghost g = ir@;
    let mut r: Vec<InferState> = Vec::new();
    let mut n: usize = 0;
    assert(states(r@) =~= Seq::<Ranges>::empty());
    while n < found.len()
        invariant
            ir@.wf(),
            g.extended_by(ir@),
            n <= found@.len(),
            (ir@, states(r@)) == bound_each(g, st@, args@, alts(*found), n as nat),
            states_in(states(r@), ir@),
        decreases found@.len() - n,
    {
        let ghost before = ir@;
        let mut s = copy_state(st);
        proof {
            lemma_ids_grow(args@, g, before);
            lemma_ranges_grow(st@, g, before);
            assert(alts(*found)[n as int] == found@[n as int]@);
            lemma_ids_grow(found@[n as int]@, g, before);
        }
        bind_terms(ir, &mut s, args, &found[n]);
        proof {
            lemma_states_grow(states(r@), before, ir@);
        }
        add_state(&mut r, s, Ghost(ir@));
        n += 1;
    }
    r
}

/// The list of one state.
fn one_state(st: InferState) -> (r: Vec<InferState>)
    ensures
        states(r@) == seq![st@],
{
    let mut r: Vec<InferState> = Vec::new();
    r.push(st);
    assert(states(r@) =~= seq![st@]);
    r
}

/// Infers the types of the variables of a premise, one case for each alternative of
/// its predicate that it fits. Whether the premise can hold at all.
fn infer_from_premise(
    ir: &mut Ir,
    program: &Program,
    progress: &mut Progress,
    premise: InstId,
    known: &InferState,
) -> (r: (Vec<InferState>, bool))
    requires
        ready(*program, *old(progress), old(ir)@),
        old(ir)@.has(premise),
        known@.wf(old(ir)@),
    ensures
        ready(*program, *final(progress), final(ir)@),
        (run_of(*final(progress), final(ir)@), states(r.0@), r.1) == after_premise(
            program@,
            run_of(*old(progress), old(ir)@),
            old(progress).visiting@,
            premise,
            known@,
        ),
        final(progress).visiting@ == old(progress).visiting@,
        states_in(states(r.0@), final(ir)@),
        old(ir)@.extended_by(final(ir)@),
    decreases unvisited(old(progress).visiting@, program@.limit), 2nat, 0nat,
{
    let ghost g = ir@;
    let ghost run = run_of(*progress, g);
    let mut st = copy_state(known);
    let mut holds = true;
    proof {
        assert(g.nodes[premise.0 as int].fits(premise.0 as nat, g.names.len(), g.strings.len()));
    }
    let mut atom: Option<(NameId, Vec<InstId>)> = None;
    let mut negated: Option<InstId> = None;
    let mut equal: Option<(InstId, InstId)> = None;
    let mut unequal: Option<(InstId, InstId)> = None;
    match ir.get(premise) {
        Inst::Atom { predicate, args } => {
            atom = Some((*predicate, copy_ids(args.as_slice())));
        },
        Inst::NegAtom(inner) => {
            negated = Some(*inner);
        },
        Inst::Eq(l, r) => {
            equal = Some((*l, *r));
        },
        Inst::Ineq(l, r) => {
            unequal = Some((*l, *r));
        },
        _ => {},
    }
    if let Some((predicate, args)) = atom {
        let ghost ids = args@;
        assert(ids_below(ids, g.nodes.len()));
        let name = ir.resolve_name(predicate);
        if str_eq(name, ":match_prefix") {
            infer_match_prefix(ir, &program.trie, &args, &mut st);
        } else if str_eq(name, ":match_field") {
            infer_match_field(ir, &program.trie, &args, &mut st);
        } else if str_eq(name, ":match_entry") {
            infer_match_entry(ir, &program.trie, &args, &mut st);
        } else if str_eq(name, ":list:member") {
            infer_list_member(ir, &program.trie, &args, &mut st);
        } else {
            let known_all = is_settled(ir, known);
            let found = get_or_infer_alternatives(ir, program, progress, predicate, &args, known);
            let ghost h = ir@;
            let ghost mid = *progress;
            proof {
                lemma_ids_grow(ids, g, h);
            }
            let r: (Vec<InferState>, bool);
            if found.len() > 0 {
                r = (bind_each(ir, known, &args, &found), true);
            } else {
                let mut bound = is_defined(program, predicate);
                if let Some(options) = program.decls.get(predicate) {
                    if options.len() > 0 {
                        proof {
                            lemma_env_grows(program@, g, h);
                            assert(program@.decls.contains_key(predicate));
                            assert(alts(*options)[0] == options@[0]@);
                            assert(alts_in(program@.decls[predicate], h));
                        }
                        bound = true;
                        bind_terms(ir, &mut st, &args, &options[0]);
                    }
                }
                r = (one_state(st), !bound || !known_all);
            }
            proof {
                lemma_env_grows(program@, h, ir@);
                lemma_types_grow(alts_map(mid.inferred@), h, ir@);
            }
            return r;
        }
    } else if let Some(inner) = negated {
        infer_negation(ir, &program.trie, inner, &mut st);
    } else if let Some((l, r)) = equal {
        holds = may_agree(ir, &program.trie, l, r, known);
        infer_eq(ir, &program.trie, l, r, &mut st);
    } else if let Some((l, r)) = unequal {
        infer_ineq(ir, &program.trie, l, r, &mut st);
    }
    proof {
        lemma_env_grows(program@, g, ir@);
        lemma_types_grow(run.inferred, g, ir@);
    }
    (one_state(st), holds)
}

/// Infers the types of the variables of a premise in each of the cases; those in which it
/// cannot hold are left out, unless there is no other.
fn infer_in_each(
    ir: &mut Ir,
    program: &Program,
    progress: &mut Progress,
    premise: InstId,
    cases: &Vec<InferState>,
) -> (r: Vec<InferState>)
    requires
        ready(*program, *old(progress), old(ir)@),
        old(ir)@.has(premise),
        states_in(states(cases@), old(ir)@),
    ensures
        ready(*program, *final(progress), final(ir)@),
        ({
            let (run, yes, no) = after_each(
                program@,
                run_of(*old(progress), old(ir)@),
                old(progress).visiting@,
                premise,
                states(cases@),
                states(cases@).len(),
            );
            &&& run_of(*final(progress), final(ir)@) == run
            &&& states(r@) == if yes.len() > 0 {
                yes
            } else {
                no
            }
        }),
        final(progress).visiting@ == old(progress).visiting@,
        states_in(states(r@), final(ir)@),
        old(ir)@.extended_by(final(ir)@),
    decreases unvisited(old(progress).visiting@, program@.limit), 3nat, 0nat,
{
    let ghost g = ir@;
    let ghost start = run_of(*progress, g);
    let ghost visiting = progress.visiting@;
    let mut yes: Vec<InferState> = Vec::new();
    let mut no: Vec<InferState> = Vec::new();
    let mut n: usize = 0;
    assert(states(yes@) =~= Seq::<Ranges>::empty());
    while n < cases.len()
        invariant
            ready(*program, *progress, ir@),
            g.extended_by(ir@),
            n <= cases@.len(),
            progress.visiting@ == visiting,
            (run_of(*progress, ir@), states(yes@), states(no@)) == after_each(
                program@,
                start,
                visiting,
                premise,
                states(cases@),
                n as nat,
            ),
            states_in(states(yes@), ir@),
            states_in(states(no@), ir@),
        decreases cases@.len() - n,
    {
        let ghost before = ir@;
        proof {
            assert(states(cases@)[n as int] == cases@[n as int]@);
            lemma_ranges_grow(cases@[n as int]@, g, before);
        }
        let (next, holds) = infer_from_premise(ir, program, progress, premise, &cases[n]);
        proof {
            lemma_states_grow(states(yes@), before, ir@);
            lemma_states_grow(states(no@), before, ir@);
        }
        if holds {
            add_all_states(&mut yes, next, Ghost(ir@));
        } else {
            add_all_states(&mut no, next, Ghost(ir@));
        }
        n += 1;
    }
    if yes.len() > 0 {
        yes
    } else {
        no
    }
}

/// Infers the types of the terms of a head in one case.
#[verifier::rlimit(40)]
#[verifier::spinoff_prover]
fn infer_head(ir: &mut Ir, trie: &NameTrie, transform: &Vec<InstId>, terms: &Vec<InstId>, case: &InferState) -> (r: Vec<InstId>)
    requires
        old(ir)@.wf(),
        ids_below(transform@, old(ir)@.nodes.len()),
        ids_below(terms@, old(ir)@.nodes.len()),
        case@.wf(old(ir)@),
    ensures
        final(ir)@.wf(),
        (final(ir)@, r@) == head_case(old(ir)@, trie@, transform@, terms@, case@),
        ids_below(r@, final(ir)@.nodes.len()),
        old(ir)@.extended_by(final(ir)@),
{
    let ghost h = ir@;
    let mut st = copy_state(case);
    let mut k: usize = 0;
    while k < transform.len()
        invariant
            ir@.wf(),
            h.extended_by(ir@),
            k <= transform@.len(),
            st@.wf(ir@),
            (ir@, st@) == after_transforms(h, trie@, transform@, case@, k as nat),
        decreases transform@.len() - k,
    {
        proof {
            assert(ir@.has(transform@[k as int]));
            assert(ir@.nodes[transform@[k as int].0 as int].fits(
                transform@[k as int].0 as nat,
                ir@.names.len(),
                ir@.strings.len(),
            ));
        }
        let mut found: Option<(NameId, InstId)> = None;
        if let Inst::Transform { var, app } = ir.get(transform[k]) {
            if let Some(v) = var {
                found = Some((*v, *app));
            }
        }
        if let Some((v, app)) = found {
            let t = bound_of_arg(ir, trie, &st, app);
            st.add_or_refine_with_ir(ir, v, t);
        }
        k += 1;
    }
    let ghost base = ir@;
    proof {
        lemma_ids_grow(terms@, h, base);
    }
    crate::infer::bounds_of_args(ir, trie, &st, terms, Ghost(base.nodes.len()), Ghost(base))
}

/// Infers the types of the variables of premises and transforms, and the types that
/// the arguments of the head may have.
#[verifier::rlimit(80)]
#[verifier::spinoff_prover]
pub(crate) fn infer_clause(
    ir: &mut Ir,
    program: &Program,
    progress: &mut Progress,
    rule: InstId,
) -> (r: Vec<Vec<InstId>>)
    requires
        ready(*program, *old(progress), old(ir)@),
        old(ir)@.has(rule),
        old(ir)@.node(rule) is Rule,
    ensures
        ready(*program, *final(progress), final(ir)@),
        (run_of(*final(progress), final(ir)@), alts(r)) == head_types(
            program@,
            run_of(*old(progress), old(ir)@),
            old(progress).visiting@,
            rule,
        ),
        alts_in(alts(r), final(ir)@),
        final(progress).visiting@ == old(progress).visiting@,
        old(ir)@.extended_by(final(ir)@),
    decreases unvisited(old(progress).visiting@, program@.limit), 5nat, 0nat,
{
    let ghost g = ir@;
    let ghost start = run_of(*progress, g);
    let ghost visiting = progress.visiting@;
    proof {
        assert(g.nodes[rule.0 as int].fits(rule.0 as nat, g.names.len(), g.strings.len()));
    }
    let (head, premises, transform) = match ir.get(rule) {
        Inst::Rule { head, premises, transform } => (
            *head,
            copy_ids(premises.as_slice()),
            copy_ids(transform.as_slice()),
        ),
        _ => return Vec::new(),
    };
    let terms = atom_args(ir, head);
    let mut cases = one_state(InferState::new());
    let mut n: usize = 0;
    while n < premises.len()
        invariant
            ready(*program, *progress, ir@),
            g.extended_by(ir@),
            n <= premises@.len(),
            progress.visiting@ == visiting,
            states_in(states(cases@), ir@),
            (run_of(*progress, ir@), states(cases@)) == after_premises(
                program@,
                start,
                visiting,
                premises@,
                n as nat,
            ),
        decreases premises@.len() - n,
    {
        cases = infer_in_each(ir, program, progress, premises[n], &cases);
        n += 1;
    }
    let ghost h = ir@;
    let mut r: Vec<Vec<InstId>> = Vec::new();
    let mut k: usize = 0;
    assert(alts(r) =~= Seq::<Seq<InstId>>::empty());
    while k < cases.len()
        invariant
            ir@.wf(),
            h.extended_by(ir@),
            k <= cases@.len(),
            (ir@, alts(r)) == head_cases(
                h,
                program@.paths,
                transform@,
                terms@,
                states(cases@),
                k as nat,
            ),
            alts_in(alts(r), ir@),
        decreases cases@.len() - k,
    {
        let ghost before = ir@;
        proof {
            lemma_ids_grow(terms@, g, h);
            lemma_ids_grow(terms@, h, before);
            lemma_ids_grow(transform@, g, h);
            lemma_ids_grow(transform@, h, before);
            assert(states(cases@)[k as int] == cases@[k as int]@);
            lemma_ranges_grow(cases@[k as int]@, h, before);
        }
        let types = infer_head(ir, &program.trie, &transform, &terms, &cases[k]);
        proof {
            lemma_alts_grow(alts(r), before, ir@);
        }
        add_types(&mut r, types, Ghost(ir@));
        k += 1;
    }
    proof {
        lemma_env_grows(program@, h, ir@);
        lemma_types_grow(alts_map(progress.inferred@), h, ir@);
    }
    r
}

/// The arguments of an atom.
pub(crate) fn atom_args(ir: &Ir, atom: InstId) -> (r: Vec<InstId>)
    requires
        ir@.wf(),
        ir@.has(atom),
    ensures
        r@ == atom_terms(ir@, atom),
        ids_below(r@, atom.0 as nat),
{
    match ir.get(atom) {
        Inst::Atom { args, .. } => copy_ids(args.as_slice()),
        _ => {
            let v: Vec<InstId> = Vec::new();
            assert(v@ =~= atom_terms(ir@, atom));
            v
        },
    }
}

/// The predicate of an atom.
pub(crate) fn atom_predicate(ir: &Ir, atom: InstId) -> (r: Option<NameId>)
    requires
        ir@.wf(),
        ir@.has(atom),
    ensures
        r == predicate_of(ir@, atom),
        r matches Some(p) ==> ir@.has_name(p),
{
    match ir.get(atom) {
        Inst::Atom { predicate, .. } => Some(*predicate),
        _ => None,
    }
}

/// Infers the alternatives of a predicate from the rules that define it.
fn infer_rel_types(ir: &mut Ir, program: &Program, progress: &mut Progress, predicate: NameId) -> (r: Vec<Vec<InstId>>)
    requires
        ready(*program, *old(progress), old(ir)@),
    ensures
        ready(*program, *final(progress), final(ir)@),
        (run_of(*final(progress), final(ir)@), alts(r)) == rule_types(
            program@,
            run_of(*old(progress), old(ir)@),
            old(progress).visiting@,
            predicate,
            program@.rules.len(),
        ),
        alts_in(alts(r), final(ir)@),
        final(progress).visiting@ == old(progress).visiting@,
        old(ir)@.extended_by(final(ir)@),
    decreases unvisited(old(progress).visiting@, program@.limit), 6nat, 0nat,
{
    let ghost g = ir@;
    let ghost start = run_of(*progress, g);
    let ghost visiting = progress.visiting@;
    let mut r: Vec<Vec<InstId>> = Vec::new();
    let mut n: usize = 0;
    assert(alts(r) =~= Seq::<Seq<InstId>>::empty());
    while n < program.rules.len()
        invariant
            ready(*program, *progress, ir@),
            g.extended_by(ir@),
            n <= program.rules@.len(),
            progress.visiting@ == visiting,
            (run_of(*progress, ir@), alts(r)) == rule_types(
                program@,
                start,
                visiting,
                predicate,
                n as nat,
            ),
            alts_in(alts(r), ir@),
        decreases program.rules@.len() - n,
    {
        let (p, rule) = program.rules[n];
        assert(program@.rules[n as int] == (p, rule));
        if p == predicate {
            let ghost before = ir@;
            let ghost so_far = alts(r);
            let types = infer_clause(ir, program, progress, rule);
            proof {
                lemma_alts_grow(so_far, before, ir@);
            }
            add_all_types(&mut r, types, Ghost(ir@));
        }
        n += 1;
    }
    r
}

/// Looks up or infers the alternatives of a predicate that a subgoal fits.
///
/// Declared types come first, then what was inferred, then inference from rules. A
/// predicate whose inference is under way has arguments of any type.
fn get_or_infer_alternatives(
    ir: &mut Ir,
    program: &Program,
    progress: &mut Progress,
    predicate: NameId,
    args: &Vec<InstId>,
    st: &InferState,
) -> (r: Vec<Vec<InstId>>)
    requires
        ready(*program, *old(progress), old(ir)@),
        ids_below(args@, old(ir)@.nodes.len()),
        st@.wf(old(ir)@),
    ensures
        ready(*program, *final(progress), final(ir)@),
        (run_of(*final(progress), final(ir)@), alts(r)) == subgoal_types(
            program@,
            run_of(*old(progress), old(ir)@),
            old(progress).visiting@,
            predicate,
            args@,
            st@,
        ),
        alts_in(alts(r), final(ir)@),
        final(progress).visiting@ == old(progress).visiting@,
        old(ir)@.extended_by(final(ir)@),
        st@.wf(final(ir)@),
    decreases unvisited(old(progress).visiting@, program@.limit), 1nat, 0nat,
{
    let ghost g = ir@;
    let ghost start = run_of(*progress, g);
    let ghost visiting = progress.visiting@;
    let mut options: Option<Vec<Vec<InstId>>> = None;
    if let Some(declared) = program.decls.get(predicate) {
        assert(program@.decls.contains_key(predicate));
        options = Some(copy_alts(declared));
    } else if let Some(inferred) = progress.inferred.get(predicate) {
        assert(start.inferred.contains_key(predicate));
        options = Some(copy_alts(inferred));
    }
    if let Some(known) = options {
        let r = feasible_alternatives(
            ir,
            &mut progress.fresh,
            &program.trie,
            st,
            args,
            &known,
            Ghost(start.inferred),
        );
        proof {
            lemma_env_grows(program@, g, ir@);
            lemma_types_grow(start.inferred, g, ir@);
        }
        return r;
    }
    if progress.visiting.contains(predicate) {
        let any = find_or_create_name(ir, "/any");
        let mut row: Vec<InstId> = Vec::new();
        let mut i: usize = 0;
        while i < args.len()
            invariant
                i <= args@.len(),
                row@ == Seq::new(i as nat, |j: int| any),
            decreases args@.len() - i,
        {
            row.push(any);
            i += 1;
            assert(row@ =~= Seq::new(i as nat, |j: int| any));
        }
        let mut r: Vec<Vec<InstId>> = Vec::new();
        let ghost made = row@;
        r.push(row);
        assert(alts(r) =~= seq![made]);
        proof {
            lemma_env_grows(program@, g, ir@);
            lemma_types_grow(start.inferred, g, ir@);
        }
        return r;
    }
    if !is_defined(program, predicate) {
        let r: Vec<Vec<InstId>> = Vec::new();
        assert(alts(r) =~= Seq::<Seq<InstId>>::empty());
        return r;
    }
    proof {
        lemma_visit(visiting, predicate, program@.limit);
    }
    progress.visiting.insert(predicate);
    let inferred = infer_rel_types(ir, program, progress, predicate);
    progress.visiting.remove(predicate);
    assert(visiting.insert(predicate).remove(predicate) =~= visiting);
    let ghost h = ir@;
    let ghost mid = run_of(*progress, h);
    if inferred.len() == 0 {
        assert(alts(inferred) =~= Seq::<Seq<InstId>>::empty());
        return inferred;
    }
    let kept = copy_alts(&inferred);
    progress.inferred.insert(predicate, kept);
    let ghost with = alts_map(progress.inferred@);
    proof {
        assert(with =~= mid.inferred.insert(predicate, alts(inferred)));
        lemma_ids_grow(args@, g, h);
        lemma_ranges_grow(st@, g, h);
    }
    let r = feasible_alternatives(
        ir,
        &mut progress.fresh,
        &program.trie,
        st,
        args,
        &inferred,
        Ghost(with),
    );
    proof {
        lemma_env_grows(program@, h, ir@);
        lemma_types_grow(with, h, ir@);
    }
    r
}

} // verus!
