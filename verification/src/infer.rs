//! Inference of the types of terms.
use vstd::prelude::*;

use crate::has_type::copy_names;
use crate::has_type::position;
use crate::ir::{ids_below, Graph, Inst, InstId, Ir, NameId, Node};
use crate::name_trie::prefix_of;
use crate::name_trie::NameTrie;
use crate::text::str_eq;
use crate::type_bounds::{lemma_grounded_empty, lower, upper};
use crate::type_bounds::{lower_bound, upper_bound};
use crate::type_expr::{
    add_apply, apply_fn_args, applies, copy_ids, find_or_create_name, is_empty_type, TypeContext,
    FN_EMPTY_TYPE, FN_LIST, FN_MAP, FN_STRUCT, FN_TUPLE,
};
use crate::type_expr::{args_of, is_fn, name_node, with_apply};
use crate::type_ops::field_deep;
use crate::type_ops::struct_type_field_deep;

verus! {

/// The variables of a clause and the types that are inferred for them.
pub struct InferState {
    pub used_vars: Vec<NameId>,
    pub var_types: Vec<InstId>,
}

/// The model of an [`InferState`].
pub struct Ranges {
    pub vars: Seq<NameId>,
    pub types: Seq<InstId>,
}

impl View for InferState {
    type V = Ranges;

    open spec fn view(&self) -> Ranges {
        Ranges { vars: self.used_vars@, types: self.var_types@ }
    }
}

impl Ranges {
    /// There is one type of the graph for each variable.
    pub open spec fn wf(self, g: Graph) -> bool {
        self.vars.len() == self.types.len() && ids_below(self.types, g.nodes.len())
    }

    /// The type of a variable.
    pub open spec fn lookup(self, v: NameId) -> Option<InstId> {
        match position(self.vars, v, 0) {
            Some(i) => Some(self.types[i]),
            None => None,
        }
    }

    /// No variable.
    pub open spec fn none() -> Ranges {
        Ranges { vars: Seq::empty(), types: Seq::empty() }
    }
}

/// What is known of a variable once it is seen to have the type `t`, and the graph
/// that holds it: a known type is narrowed, unless nothing would be left of it.
pub open spec fn refined(g: Graph, st: Ranges, v: NameId, t: InstId) -> (Graph, Ranges) {
    match position(st.vars, v, 0) {
        Some(i) => {
            let (h, meet) = lower(g, Map::empty(), seq![st.types[i], t]);
            if is_fn(h, meet, FN_EMPTY_TYPE@) {
                (h, st)
            } else {
                (h, Ranges { vars: st.vars, types: st.types.update(i, meet) })
            }
        },
        None => (g, Ranges { vars: st.vars.push(v), types: st.types.push(t) }),
    }
}

/// What is known once a variable has the type `t`.
pub open spec fn assigned(st: Ranges, v: NameId, t: InstId) -> Ranges {
    match position(st.vars, v, 0) {
        Some(i) => Ranges { vars: st.vars, types: st.types.update(i, t) },
        None => st,
    }
}

/// The lower bound of two types.
pub(crate) fn meet_of(ir: &mut Ir, a: InstId, b: InstId) -> (id: InstId)
    requires
        old(ir)@.wf(),
        old(ir)@.has(a),
        old(ir)@.has(b),
    ensures
        final(ir)@.wf(),
        (final(ir)@, id) == lower(old(ir)@, Map::empty(), seq![a, b]),
        final(ir)@.has(id),
        old(ir)@.extended_by(final(ir)@),
{
    let ctx = TypeContext::new();
    proof {
        lemma_grounded_empty(ir@);
    }
    let both: Vec<InstId> = vec![a, b];
    assert(both@ =~= seq![a, b]);
    lower_bound(ir, &ctx, both.as_slice())
}

/// The upper bound of types without variables.
fn join_of(ir: &mut Ir, types: &Vec<InstId>) -> (id: InstId)
    requires
        old(ir)@.wf(),
        ids_below(types@, old(ir)@.nodes.len()),
    ensures
        final(ir)@.wf(),
        (final(ir)@, id) == upper(old(ir)@, Map::empty(), types@),
        final(ir)@.has(id),
        old(ir)@.extended_by(final(ir)@),
{
    let ctx = TypeContext::new();
    proof {
        lemma_grounded_empty(ir@);
    }
    upper_bound(ir, &ctx, types.as_slice())
}

impl InferState {
    /// No variable is known.
    pub fn new() -> (s: InferState)
        ensures
            s@ == Ranges::none(),
    {
        let s = InferState { used_vars: Vec::new(), var_types: Vec::new() };
        assert(s@.vars =~= Ranges::none().vars);
        assert(s@.types =~= Ranges::none().types);
        s
    }

    /// The place of a variable.
    fn find(&self, var: NameId) -> (r: Option<usize>)
        ensures
            match r {
                Some(i) => position(self@.vars, var, 0) == Some(i as int) && i < self@.vars.len(),
                None => position(self@.vars, var, 0) is None,
            },
    {
        let mut i: usize = 0;
        while i < self.used_vars.len()
            invariant
                i <= self.used_vars@.len(),
                position(self@.vars, var, 0) == position(self@.vars, var, i as int),
            decreases self.used_vars@.len() - i,
        {
            if self.used_vars[i] == var {
                return Some(i);
            }
            i += 1;
        }
        None
    }

    /// The type of a variable.
    pub fn lookup(&self, var: NameId) -> (r: Option<InstId>)
        requires
            self@.vars.len() == self@.types.len(),
        ensures
            r == self@.lookup(var),
            r matches Some(t) ==> exists|i: int| 0 <= i < self@.types.len() && self@.types[i] == t,
    {
        match self.find(var) {
            Some(i) => Some(self.var_types[i]),
            None => None,
        }
    }

    /// Adds a variable, or narrows the type of a known one to the lower bound.
    pub fn add_or_refine_with_ir(&mut self, ir: &mut Ir, var: NameId, tpe: InstId)
        requires
            old(ir)@.wf(),
            old(ir)@.has(tpe),
            old(self)@.wf(old(ir)@),
        ensures
            final(ir)@.wf(),
            (final(ir)@, final(self)@) == refined(old(ir)@, old(self)@, var, tpe),
            final(self)@.wf(final(ir)@),
            old(ir)@.extended_by(final(ir)@),
    {
        match self.find(var) {
            Some(i) => {
                let meet = meet_of(ir, self.var_types[i], tpe);
                if !is_empty_type(ir, meet) {
                    self.var_types.set(i, meet);
                }
            },
            None => {
                self.used_vars.push(var);
                self.var_types.push(tpe);
            },
        }
    }

    /// Gives a known variable another type.
    pub fn set_var(&mut self, var: NameId, tpe: InstId)
        requires
            old(self)@.vars.len() == old(self)@.types.len(),
        ensures
            final(self)@ == assigned(old(self)@, var, tpe),
            forall|g: Graph| old(self)@.wf(g) && g.has(tpe) ==> #[trigger] final(self)@.wf(g),
    {
        if let Some(i) = self.find(var) {
            self.var_types.set(i, tpe);
        }
    }
}

/// The list type of `t`, and the graph that holds it.
pub open spec fn list_of(g: Graph, t: InstId) -> (Graph, InstId) {
    (with_apply(g, FN_LIST@, seq![t]), g.next())
}

/// The map type of `k` and `v`, and the graph that holds it.
pub open spec fn map_of(g: Graph, k: InstId, v: InstId) -> (Graph, InstId) {
    (with_apply(g, FN_MAP@, seq![k, v]), g.next())
}

/// The type of the elements of a list type of one argument; `/any` of anything else.
pub open spec fn elem_of(g: Graph, t: InstId) -> (Graph, InstId) {
    match args_of(g, t, FN_LIST@) {
        Some(args) => if args.len() == 1 {
            (g, args[0])
        } else {
            name_node(g, "/any"@)
        },
        None => name_node(g, "/any"@),
    }
}

/// The type of the list of the terms `ids`.
pub open spec fn list_bound(
    base: Graph,
    g: Graph,
    paths: Set<Seq<Seq<char>>>,
    st: Ranges,
    ids: Seq<InstId>,
    limit: nat,
) -> (Graph, InstId)
    decreases limit, 1nat, 0nat,
    when base.wf() && limit <= base.nodes.len() && ids_below(ids, limit)
{
    if ids.len() == 0 {
        let (h, bot) = name_node(g, "/bot"@);
        list_of(h, bot)
    } else {
        let (h, types) = arg_bounds(base, g, paths, st, ids, ids.len(), limit);
        let (k, t) = upper(h, Map::empty(), types);
        list_of(k, t)
    }
}

/// The types of the first `n` of the terms `ids`.
pub open spec fn arg_bounds(
    base: Graph,
    g: Graph,
    paths: Set<Seq<Seq<char>>>,
    st: Ranges,
    ids: Seq<InstId>,
    n: nat,
    limit: nat,
) -> (Graph, Seq<InstId>)
    decreases limit, 0nat, n,
    when base.wf() && limit <= base.nodes.len() && ids_below(ids, limit) && n <= ids.len()
{
    if n == 0 {
        (g, Seq::empty())
    } else {
        let (h, types) = arg_bounds(base, g, paths, st, ids, (n - 1) as nat, limit);
        let (k, t) = arg_bound(base, h, paths, st, ids[n - 1]);
        (k, types.push(t))
    }
}

/// The types of the first `n` pairs of keys and values among the terms `ids`.
pub open spec fn pair_bounds(
    base: Graph,
    g: Graph,
    paths: Set<Seq<Seq<char>>>,
    st: Ranges,
    ids: Seq<InstId>,
    n: nat,
    limit: nat,
) -> (Graph, Seq<InstId>, Seq<InstId>)
    decreases limit, 0nat, n,
    when base.wf() && limit <= base.nodes.len() && ids_below(ids, limit) && 2 * n <= ids.len()
{
    if n == 0 {
        (g, Seq::empty(), Seq::empty())
    } else {
        let (h, keys, values) = pair_bounds(base, g, paths, st, ids, (n - 1) as nat, limit);
        let (k, a) = arg_bound(base, h, paths, st, ids[2 * n - 2]);
        let (m, b) = arg_bound(base, k, paths, st, ids[2 * n - 1]);
        (m, keys.push(a), values.push(b))
    }
}

/// The arguments of the struct type of the first `n` fields.
pub open spec fn struct_bounds(
    base: Graph,
    g: Graph,
    paths: Set<Seq<Seq<char>>>,
    st: Ranges,
    fields: Seq<NameId>,
    values: Seq<InstId>,
    n: nat,
    limit: nat,
) -> (Graph, Seq<InstId>)
    decreases limit, 0nat, n,
    when base.wf() && limit <= base.nodes.len() && ids_below(values, limit) && n <= values.len()
{
    if n == 0 {
        (g, Seq::empty())
    } else {
        let (h, args) = struct_bounds(base, g, paths, st, fields, values, (n - 1) as nat, limit);
        let (k, name) = name_node(h, base.name(fields[n - 1]));
        let (m, t) = arg_bound(base, k, paths, st, values[n - 1]);
        (m, args.push(name).push(t))
    }
}

/// The arguments of the struct type of the first `n` pairs of names and terms.
pub open spec fn struct_call_bounds(
    base: Graph,
    g: Graph,
    paths: Set<Seq<Seq<char>>>,
    st: Ranges,
    ids: Seq<InstId>,
    n: nat,
    limit: nat,
) -> (Graph, Seq<InstId>)
    decreases limit, 0nat, n,
    when base.wf() && limit <= base.nodes.len() && ids_below(ids, limit) && 2 * n <= ids.len()
{
    if n == 0 {
        (g, Seq::empty())
    } else {
        let (h, args) = struct_call_bounds(base, g, paths, st, ids, (n - 1) as nat, limit);
        let (k, t) = arg_bound(base, h, paths, st, ids[2 * n - 1]);
        (k, args.push(ids[2 * n - 2]).push(t))
    }
}

/// The type of the term `arg` of `base`, and the graph that holds it; `g` is `base`
/// or a later graph.
pub open spec fn arg_bound(
    base: Graph,
    g: Graph,
    paths: Set<Seq<Seq<char>>>,
    st: Ranges,
    arg: InstId,
) -> (Graph, InstId)
    decreases arg.0, 3nat, 0nat,
    when base.wf() && base.has(arg)
{
    match base.node(arg) {
        Node::Var(v) => match st.lookup(v) {
            Some(t) => (g, t),
            None => name_node(g, "/any"@),
        },
        Node::Number(_) => name_node(g, "/number"@),
        Node::Float(_) => name_node(g, "/float64"@),
        Node::String(_) => name_node(g, "/string"@),
        Node::Bool(_) => name_node(g, "/bool"@),
        Node::Time(_) => name_node(g, "/time"@),
        Node::Duration(_) => name_node(g, "/duration"@),
        Node::Bytes(_) => name_node(g, "/bytes"@),
        Node::Name(n) => name_node(g, prefix_of(paths, base.name(n))),
        Node::List(elems) => list_bound(base, g, paths, st, elems, arg.0 as nat),
        Node::Dict { keys, values } => {
            let (h, ks) = arg_bounds(base, g, paths, st, keys, keys.len(), arg.0 as nat);
            let (k, vs) = arg_bounds(base, h, paths, st, values, values.len(), arg.0 as nat);
            let (m, kt) = upper(k, Map::empty(), ks);
            let (n, vt) = upper(m, Map::empty(), vs);
            map_of(n, kt, vt)
        },
        Node::Struct { fields, values } => {
            let (h, args) = struct_bounds(
                base,
                g,
                paths,
                st,
                fields,
                values,
                values.len(),
                arg.0 as nat,
            );
            (with_apply(h, FN_STRUCT@, args), h.next())
        },
        Node::ApplyFn { function, args } => call_bound(
            base,
            g,
            paths,
            st,
            base.name(function),
            args,
            arg.0 as nat,
        ),
        _ => name_node(g, "/any"@),
    }
}

/// Functions whose result is a number.
pub open spec fn gives_number(f: Seq<char>) -> bool {
    ||| f == "fn:plus"@
    ||| f == "fn:minus"@
    ||| f == "fn:mult"@
    ||| f == "fn:div"@
    ||| f == "fn:count"@
    ||| f == "fn:sum"@
    ||| f == "fn:max"@
    ||| f == "fn:min"@
    ||| f == "fn:list:len"@
    ||| f == "fn:len"@
    ||| f == "fn:map:len"@
    ||| f == "fn:struct:len"@
}

/// Functions whose result is a floating-point number.
pub open spec fn gives_float(f: Seq<char>) -> bool {
    f == "fn:float_plus"@ || f == "fn:float_mult"@ || f == "fn:float_div"@ || f == "fn:sqrt"@
}

/// Functions whose result is a string.
pub open spec fn gives_string(f: Seq<char>) -> bool {
    f == "fn:string:concat"@ || f == "fn:string:replace"@
}

/// The type of the function `f` applied to `args`.
pub open spec fn call_bound(
    base: Graph,
    g: Graph,
    paths: Set<Seq<Seq<char>>>,
    st: Ranges,
    f: Seq<char>,
    args: Seq<InstId>,
    limit: nat,
) -> (Graph, InstId)
    decreases limit, 2nat, 0nat,
    when base.wf() && limit <= base.nodes.len() && ids_below(args, limit)
{
    if f == "fn:list"@ {
        list_bound(base, g, paths, st, args, limit)
    } else if f == "fn:map"@ {
        let (h, ks, vs) = pair_bounds(base, g, paths, st, args, args.len() / 2, limit);
        let (k, kt) = upper(h, Map::empty(), ks);
        let (m, vt) = upper(k, Map::empty(), vs);
        map_of(m, kt, vt)
    } else if f == "fn:struct"@ {
        let (h, ids) = struct_call_bounds(base, g, paths, st, args, args.len() / 2, limit);
        (with_apply(h, FN_STRUCT@, ids), h.next())
    } else if f == "fn:tuple"@ {
        let (h, ids) = arg_bounds(base, g, paths, st, args, args.len(), limit);
        (with_apply(h, FN_TUPLE@, ids), h.next())
    } else if f == "fn:struct_get"@ && args.len() == 2 {
        let (h, t) = arg_bound(base, g, paths, st, args[0]);
        match base.node(args[1]) {
            Node::Name(field) => {
                let (k, r) = field_deep(h, h, t, field);
                match r {
                    Some(ft) => (k, ft),
                    None => name_node(k, "/any"@),
                }
            },
            _ => name_node(h, "/any"@),
        }
    } else if gives_number(f) {
        name_node(g, "/number"@)
    } else if gives_float(f) {
        name_node(g, "/float64"@)
    } else if gives_string(f) {
        name_node(g, "/string"@)
    } else if f == "fn:list:get"@ && args.len() == 2 {
        let (h, t) = arg_bound(base, g, paths, st, args[0]);
        elem_of(h, t)
    } else if f == "fn:list:append"@ && args.len() == 2 {
        let (h, t) = arg_bound(base, g, paths, st, args[0]);
        let (k, new) = arg_bound(base, h, paths, st, args[1]);
        let (m, was) = elem_of(k, t);
        let (n, elem) = upper(m, Map::empty(), seq![was, new]);
        list_of(n, elem)
    } else if f == "fn:collect"@ || f == "fn:collect_distinct"@ {
        if args.len() == 1 {
            let (h, t) = arg_bound(base, g, paths, st, args[0]);
            list_of(h, t)
        } else {
            let (h, any) = name_node(g, "/any"@);
            list_of(h, any)
        }
    } else {
        name_node(g, "/any"@)
    }
}

/// Ranges stay valid when the graph grows.
pub proof fn lemma_ranges_grow(st: Ranges, g: Graph, later: Graph)
    requires
        st.wf(g),
        g.extended_by(later),
    ensures
        st.wf(later),
{
    assert(g.nodes.len() <= later.nodes.len());
}

/// Ids stay valid when the graph grows.
pub proof fn lemma_ids_grow(ids: Seq<InstId>, g: Graph, later: Graph)
    requires
        ids_below(ids, g.nodes.len()),
        g.extended_by(later),
    ensures
        ids_below(ids, later.nodes.len()),
{
    assert(g.nodes.len() <= later.nodes.len());
}

/// Adds the list type of `t`.
fn add_list(ir: &mut Ir, t: InstId) -> (id: InstId)
    requires
        old(ir)@.wf(),
        old(ir)@.has(t),
    ensures
        final(ir)@.wf(),
        (final(ir)@, id) == list_of(old(ir)@, t),
        final(ir)@.has(id),
        old(ir)@.extended_by(final(ir)@),
{
    crate::type_expr::new_list_type(ir, t)
}

/// The type of the elements of a list type; `/any` of anything else.
fn elem_type(ir: &mut Ir, t: InstId) -> (id: InstId)
    requires
        old(ir)@.wf(),
        old(ir)@.has(t),
    ensures
        final(ir)@.wf(),
        (final(ir)@, id) == elem_of(old(ir)@, t),
        final(ir)@.has(id),
        old(ir)@.extended_by(final(ir)@),
{
    let mut found: Option<InstId> = None;
    if applies(ir, t, FN_LIST) {
        if let Some(args) = apply_fn_args(ir, t) {
            if args.len() == 1 {
                found = Some(args[0]);
            }
        }
    }
    match found {
        Some(e) => e,
        None => find_or_create_name(ir, "/any"),
    }
}

/// The types of terms of an earlier graph.
pub(crate) fn bounds_of_args(
    ir: &mut Ir,
    trie: &NameTrie,
    st: &InferState,
    ids: &Vec<InstId>,
    Ghost(limit): Ghost<nat>,
    Ghost(base): Ghost<Graph>,
) -> (r: Vec<InstId>)
    requires
        base.wf(),
        limit <= base.nodes.len(),
        ids_below(ids@, limit),
        base.extended_by(old(ir)@),
        old(ir)@.wf(),
        st@.wf(base),
    ensures
        final(ir)@.wf(),
        (final(ir)@, r@) == arg_bounds(base, old(ir)@, trie@, st@, ids@, ids@.len(), limit),
        ids_below(r@, final(ir)@.nodes.len()),
        old(ir)@.extended_by(final(ir)@),
    decreases limit, 0nat,
{
    let ghost g = ir@;
    let mut r: Vec<InstId> = Vec::new();
    let mut n: usize = 0;
    while n < ids.len()
        invariant
            ir@.wf(),
            g.extended_by(ir@),
            n <= ids@.len(),
            (ir@, r@) == arg_bounds(base, g, trie@, st@, ids@, n as nat, limit),
            ids_below(r@, ir@.nodes.len()),
        decreases ids@.len() - n,
    {
        let t = bound_of_arg_from(ir, trie, st, ids[n], Ghost(base));
        r.push(t);
        n += 1;
    }
    r
}

/// The type of a list of terms of an earlier graph.
fn bound_of_list(
    ir: &mut Ir,
    trie: &NameTrie,
    st: &InferState,
    ids: &Vec<InstId>,
    Ghost(limit): Ghost<nat>,
    Ghost(base): Ghost<Graph>,
) -> (id: InstId)
    requires
        base.wf(),
        limit <= base.nodes.len(),
        ids_below(ids@, limit),
        base.extended_by(old(ir)@),
        old(ir)@.wf(),
        st@.wf(base),
    ensures
        final(ir)@.wf(),
        (final(ir)@, id) == list_bound(base, old(ir)@, trie@, st@, ids@, limit),
        final(ir)@.has(id),
        old(ir)@.extended_by(final(ir)@),
    decreases limit, 1nat,
{
    if ids.len() == 0 {
        let bot = find_or_create_name(ir, "/bot");
        return add_list(ir, bot);
    }
    let types = bounds_of_args(ir, trie, st, ids, Ghost(limit), Ghost(base));
    let t = join_of(ir, &types);
    add_list(ir, t)
}

/// The type of a term of an earlier graph.
#[verifier::rlimit(60)]
#[verifier::spinoff_prover]
fn bound_of_arg_from(
    ir: &mut Ir,
    trie: &NameTrie,
    st: &InferState,
    arg: InstId,
    Ghost(base): Ghost<Graph>,
) -> (id: InstId)
    requires
        base.wf(),
        base.has(arg),
        base.extended_by(old(ir)@),
        old(ir)@.wf(),
        st@.wf(base),
    ensures
        final(ir)@.wf(),
        (final(ir)@, id) == arg_bound(base, old(ir)@, trie@, st@, arg),
        final(ir)@.has(id),
        old(ir)@.extended_by(final(ir)@),
    decreases arg.0, 3nat,
{
    let ghost g = ir@;
    proof {
        assert(base.nodes[arg.0 as int] == g.nodes[arg.0 as int]);
        assert(base.nodes[arg.0 as int].fits(arg.0 as nat, base.names.len(), base.strings.len()));
        assert forall|n: NameId| base.has_name(n) implies base.name(n) == #[trigger] g.name(n) by {
            assert(base.names[n.0 as int] == g.names[n.0 as int]);
        }
    }
    let limit: Ghost<nat> = Ghost(arg.0 as nat);
    let mut list: Option<Vec<InstId>> = None;
    let mut dict: Option<(Vec<InstId>, Vec<InstId>)> = None;
    let mut record: Option<(Vec<NameId>, Vec<InstId>)> = None;
    let mut call: Option<(String, Vec<InstId>)> = None;
    let mut name: String = "/any".to_owned();
    match ir.get(arg) {
        Inst::Var(v) => {
            if let Some(t) = st.lookup(*v) {
                return t;
            }
        },
        Inst::Number(_) => {
            name = "/number".to_owned();
        },
        Inst::Float(_) => {
            name = "/float64".to_owned();
        },
        Inst::String(_) => {
            name = "/string".to_owned();
        },
        Inst::Bool(_) => {
            name = "/bool".to_owned();
        },
        Inst::Time(_) => {
            name = "/time".to_owned();
        },
        Inst::Duration(_) => {
            name = "/duration".to_owned();
        },
        Inst::Bytes(_) => {
            name = "/bytes".to_owned();
        },
        Inst::Name(n) => {
            name = trie.prefix_name(ir.resolve_name(*n));
        },
        Inst::List(elems) => {
            list = Some(copy_ids(elems.as_slice()));
        },
        Inst::Dict { keys, values } => {
            dict = Some((copy_ids(keys.as_slice()), copy_ids(values.as_slice())));
        },
        Inst::Struct { fields, values } => {
            record = Some((copy_names(fields), copy_ids(values.as_slice())));
        },
        Inst::ApplyFn { function, args } => {
            call = Some((ir.resolve_name(*function).to_owned(), copy_ids(args.as_slice())));
        },
        _ => {},
    }
    if let Some(elems) = list {
        return bound_of_list(ir, trie, st, &elems, limit, Ghost(base));
    }
    if let Some((keys, values)) = dict {
        let ks = bounds_of_args(ir, trie, st, &keys, limit, Ghost(base));
        let ghost h = ir@;
        let vs = bounds_of_args(ir, trie, st, &values, limit, Ghost(base));
        proof {
            lemma_ids_grow(ks@, h, ir@);
        }
        let ghost k = ir@;
        let kt = join_of(ir, &ks);
        proof {
            lemma_ids_grow(vs@, k, ir@);
        }
        let vt = join_of(ir, &vs);
        return crate::type_expr::new_map_type(ir, kt, vt);
    }
    if let Some((fields, values)) = record {
        let mut args: Vec<InstId> = Vec::new();
        let mut n: usize = 0;
        while n < values.len()
            invariant
                ir@.wf(),
                g.extended_by(ir@),
                n <= values@.len(),
                (ir@, args@) == struct_bounds(
                    base,
                    g,
                    trie@,
                    st@,
                    fields@,
                    values@,
                    n as nat,
                    arg.0 as nat,
                ),
                ids_below(args@, ir@.nodes.len()),
            decreases values@.len() - n,
        {
            let f = fields[n];
            assert(base.names[f.0 as int] == ir@.names[f.0 as int]);
            let text = ir.resolve_name(f).to_owned();
            let fid = find_or_create_name(ir, text.as_str());
            let t = bound_of_arg_from(ir, trie, st, values[n], Ghost(base));
            args.push(fid);
            args.push(t);
            n += 1;
        }
        return add_apply(ir, FN_STRUCT, args);
    }
    if let Some((f, args)) = call {
        return bound_of_apply_fn(ir, trie, st, f.as_str(), &args, limit, Ghost(base));
    }
    find_or_create_name(ir, name.as_str())
}

/// Whether the function gives a number.
fn call_gives_number(f: &str) -> (r: bool)
    ensures
        r == gives_number(f@),
{
    str_eq(f, "fn:plus") || str_eq(f, "fn:minus") || str_eq(f, "fn:mult") || str_eq(f, "fn:div")
        || str_eq(f, "fn:count") || str_eq(f, "fn:sum") || str_eq(f, "fn:max") || str_eq(f, "fn:min")
        || str_eq(f, "fn:list:len") || str_eq(f, "fn:len") || str_eq(f, "fn:map:len") || str_eq(
        f,
        "fn:struct:len",
    )
}

/// Whether the function gives a floating-point number.
fn call_gives_float(f: &str) -> (r: bool)
    ensures
        r == gives_float(f@),
{
    str_eq(f, "fn:float_plus") || str_eq(f, "fn:float_mult") || str_eq(f, "fn:float_div") || str_eq(
        f,
        "fn:sqrt",
    )
}

/// The type of a function application.
#[verifier::rlimit(60)]
#[verifier::spinoff_prover]
fn bound_of_apply_fn(
    ir: &mut Ir,
    trie: &NameTrie,
    st: &InferState,
    f: &str,
    args: &Vec<InstId>,
    Ghost(limit): Ghost<nat>,
    Ghost(base): Ghost<Graph>,
) -> (id: InstId)
    requires
        base.wf(),
        limit <= base.nodes.len(),
        ids_below(args@, limit),
        base.extended_by(old(ir)@),
        old(ir)@.wf(),
        st@.wf(base),
    ensures
        final(ir)@.wf(),
        (final(ir)@, id) == call_bound(base, old(ir)@, trie@, st@, f@, args@, limit),
        final(ir)@.has(id),
        old(ir)@.extended_by(final(ir)@),
    decreases limit, 2nat,
{
    let ghost g = ir@;
    if str_eq(f, "fn:list") {
        bound_of_list(ir, trie, st, args, Ghost(limit), Ghost(base))
    } else if str_eq(f, "fn:map") {
        let mut ks: Vec<InstId> = Vec::new();
        let mut vs: Vec<InstId> = Vec::new();
        let half: usize = args.len() / 2;
        let mut n: usize = 0;
        while n < half
            invariant
                ir@.wf(),
                g.extended_by(ir@),
                n <= half,
                (ir@, ks@, vs@) == pair_bounds(base, g, trie@, st@, args@, n as nat, limit),
                ids_below(ks@, ir@.nodes.len()),
                ids_below(vs@, ir@.nodes.len()),
            decreases half - n,
        {
            let a = bound_of_arg_from(ir, trie, st, args[2 * n], Ghost(base));
            let b = bound_of_arg_from(ir, trie, st, args[2 * n + 1], Ghost(base));
            ks.push(a);
            vs.push(b);
            n += 1;
        }
        let ghost k = ir@;
        let kt = join_of(ir, &ks);
        proof {
            lemma_ids_grow(vs@, k, ir@);
        }
        let vt = join_of(ir, &vs);
        crate::type_expr::new_map_type(ir, kt, vt)
    } else if str_eq(f, "fn:struct") {
        let mut ids: Vec<InstId> = Vec::new();
        let half: usize = args.len() / 2;
        let mut n: usize = 0;
        while n < half
            invariant
                ir@.wf(),
                g.extended_by(ir@),
                n <= half,
                (ir@, ids@) == struct_call_bounds(base, g, trie@, st@, args@, n as nat, limit),
                ids_below(ids@, ir@.nodes.len()),
            decreases half - n,
        {
            let t = bound_of_arg_from(ir, trie, st, args[2 * n + 1], Ghost(base));
            ids.push(args[2 * n]);
            ids.push(t);
            n += 1;
        }
        add_apply(ir, FN_STRUCT, ids)
    } else if str_eq(f, "fn:tuple") {
        let ids = bounds_of_args(ir, trie, st, args, Ghost(limit), Ghost(base));
        add_apply(ir, FN_TUPLE, ids)
    } else if str_eq(f, "fn:struct_get") && args.len() == 2 {
        let t = bound_of_arg_from(ir, trie, st, args[0], Ghost(base));
        let mut field: Option<NameId> = None;
        proof {
            let h = ir@;
            assert(base.nodes[args@[1].0 as int] == h.nodes[args@[1].0 as int]);
            assert(base.nodes[args@[1].0 as int].fits(
                args@[1].0 as nat,
                base.names.len(),
                base.strings.len(),
            ));
        }
        if let Inst::Name(n) = ir.get(args[1]) {
            field = Some(*n);
        }
        if let Some(n) = field {
            if let Some(ft) = struct_type_field_deep(ir, t, n) {
                return ft;
            }
        }
        find_or_create_name(ir, "/any")
    } else if call_gives_number(f) {
        find_or_create_name(ir, "/number")
    } else if call_gives_float(f) {
        find_or_create_name(ir, "/float64")
    } else if str_eq(f, "fn:string:concat") || str_eq(f, "fn:string:replace") {
        find_or_create_name(ir, "/string")
    } else if str_eq(f, "fn:list:get") && args.len() == 2 {
        let t = bound_of_arg_from(ir, trie, st, args[0], Ghost(base));
        elem_type(ir, t)
    } else if str_eq(f, "fn:list:append") && args.len() == 2 {
        let t = bound_of_arg_from(ir, trie, st, args[0], Ghost(base));
        let new = bound_of_arg_from(ir, trie, st, args[1], Ghost(base));
        let was = elem_type(ir, t);
        let both: Vec<InstId> = vec![was, new];
        assert(both@ =~= seq![was, new]);
        let elem = join_of(ir, &both);
        add_list(ir, elem)
    } else if str_eq(f, "fn:collect") || str_eq(f, "fn:collect_distinct") {
        if args.len() == 1 {
            let t = bound_of_arg_from(ir, trie, st, args[0], Ghost(base));
            add_list(ir, t)
        } else {
            let any = find_or_create_name(ir, "/any");
            add_list(ir, any)
        }
    } else {
        find_or_create_name(ir, "/any")
    }
}

/// Infers the type of a term.
pub fn bound_of_arg(ir: &mut Ir, trie: &NameTrie, st: &InferState, arg: InstId) -> (id: InstId)
    requires
        old(ir)@.wf(),
        old(ir)@.has(arg),
        st@.wf(old(ir)@),
    ensures
        final(ir)@.wf(),
        (final(ir)@, id) == arg_bound(old(ir)@, old(ir)@, trie@, st@, arg),
        final(ir)@.has(id),
        st@.wf(final(ir)@),
        old(ir)@.extended_by(final(ir)@),
{
    let ghost base = ir@;
    bound_of_arg_from(ir, trie, st, arg, Ghost(base))
}

} // verus!
