//! Fields of unions, expansion of tagged unions, substitution and variables.
use vstd::prelude::*;

use crate::conform::parts;
use crate::ir::{ids_below, Graph, Inst, InstId, Ir, NameId, Node};
use crate::names::NameMap;
use crate::text::str_eq;
use crate::type_bounds::upper_bound;
use crate::type_bounds::{lemma_grounded_empty, lemma_grounded_names, upper};
use crate::type_expr::{
    add_apply, apply_fn_args, copy_ids, find_or_create_name, is_struct_type, is_tagged_union_type,
    name_str, new_union_or_single, split_variants, struct_type_field, tagged_union_tag_field,
    tagged_union_variants, union_type_args, TypeContext, FN_SINGLETON, FN_STRUCT, FN_TAGGED_UNION,
    FN_UNION,
};
use crate::type_expr::{
    field_type, fn_args, is_fn, name_node, name_text, structs_of, tag_field, tagged_arity, tags_of,
    union_node, variants, with_apply,
};
use crate::wellformed::TypeError;

verus! {

/// The nodes of the arguments of an application stand before it.
pub proof fn lemma_parts_below(g: Graph, id: InstId)
    requires
        g.wf(),
        g.has(id),
    ensures
        ids_below(parts(g, id), id.0 as nat),
{
    assert(g.nodes[id.0 as int].fits(id.0 as nat, g.names.len(), g.strings.len()));
}

/// What a later graph says of what an earlier one holds.
pub proof fn lemma_same_node(g: Graph, later: Graph, id: InstId)
    requires
        g.extended_by(later),
        g.has(id),
        g.wf(),
    ensures
        later.has(id),
        later.node(id) == g.node(id),
        parts(later, id) == parts(g, id),
        name_text(later, id) == name_text(g, id),
        forall|t: Seq<char>| is_fn(later, id, t) == is_fn(g, id, t),
{
    assert(g.nodes[id.0 as int] == later.nodes[id.0 as int]);
    assert(g.nodes[id.0 as int].fits(id.0 as nat, g.names.len(), g.strings.len()));
    match g.node(id) {
        Node::Name(n) => {
            assert(g.names[n.0 as int] == later.names[n.0 as int]);
        },
        Node::ApplyFn { function, .. } => {
            assert(g.names[function.0 as int] == later.names[function.0 as int]);
        },
        _ => {},
    }
}

/// Singleton types of the first `n` tags, and the graph that holds them.
pub open spec fn singletons(g: Graph, tags: Seq<InstId>, n: nat) -> (Graph, Seq<InstId>)
    decreases n,
{
    if n == 0 {
        (g, Seq::empty())
    } else {
        let (h, ids) = singletons(g, tags, (n - 1) as nat);
        (with_apply(h, FN_SINGLETON@, seq![tags[n - 1]]), ids.push(h.next()))
    }
}

/// The types of the field in those of the first `n` structs that have it.
pub open spec fn field_types(g: Graph, structs: Seq<InstId>, field: NameId, n: nat) -> Seq<InstId>
    decreases n,
{
    if n == 0 {
        Seq::empty()
    } else {
        let rest = field_types(g, structs, field, (n - 1) as nat);
        match field_type(g, structs[n - 1], field) {
            Some(t) => rest.push(t),
            None => rest,
        }
    }
}

/// The type of a field of the type `t` of `base`, and the graph that holds it; `g`
/// is `base` or a later graph.
pub open spec fn field_deep(base: Graph, g: Graph, t: InstId, field: NameId) -> (Graph, Option<InstId>)
    decreases t.0, 1nat, 0nat,
    when base.wf() && base.has(t)
{
    if is_fn(base, t, FN_STRUCT@) {
        (g, field_type(g, t, field))
    } else if is_fn(base, t, FN_TAGGED_UNION@) {
        match (tag_field(base, t), variants(base, t)) {
            (Some(tf), Some((tags, structs))) => match name_text(base, tf) {
                Some(tag_name) => if tag_name == g.name(field) {
                    let h = g.with_name(FN_SINGLETON@);
                    let (k, ids) = singletons(h, tags, tags.len());
                    let (m, u) = union_node(k, ids);
                    (m, Some(u))
                } else {
                    let types = field_types(g, structs, field, structs.len());
                    if types.len() == 0 {
                        (g, None)
                    } else {
                        let (h, u) = upper(g, Map::empty(), types);
                        (h, Some(u))
                    }
                },
                None => (g, None),
            },
            _ => (g, None),
        }
    } else if is_fn(base, t, FN_UNION@) {
        let (h, types) = fields_deep(base, g, t, field, parts(base, t).len());
        match types {
            Some(ids) => if ids.len() == 0 {
                (h, None)
            } else {
                let (k, u) = upper(h, Map::empty(), ids);
                (k, Some(u))
            },
            None => (h, None),
        }
    } else {
        (g, None)
    }
}

/// The types of a field of the first `n` alternatives, unless one lacks the field,
/// and the graph that holds them.
pub open spec fn fields_deep(base: Graph, g: Graph, t: InstId, field: NameId, n: nat) -> (Graph, Option<Seq<InstId>>)
    decreases t.0, 0nat, n,
    when base.wf() && base.has(t) && n <= parts(base, t).len()
{
    proof {
        lemma_parts_below(base, t);
    }
    if n == 0 {
        (g, Some(Seq::empty()))
    } else {
        let (h, ids) = fields_deep(base, g, t, field, (n - 1) as nat);
        match ids {
            Some(ids) => {
                let (k, r) = field_deep(base, h, parts(base, t)[n - 1], field);
                match r {
                    Some(ft) => (k, Some(ids.push(ft))),
                    None => (k, None),
                }
            },
            None => (h, None),
        }
    }
}

/// The type of a field, projected from each alternative of a type of an earlier graph.
fn field_deep_from(ir: &mut Ir, type_id: InstId, field: NameId, Ghost(base): Ghost<Graph>) -> (r: Option<InstId>)
    requires
        base.wf(),
        base.has(type_id),
        base.extended_by(old(ir)@),
        old(ir)@.wf(),
        old(ir)@.has_name(field),
    ensures
        final(ir)@.wf(),
        (final(ir)@, r) == field_deep(base, old(ir)@, type_id, field),
        r matches Some(id) ==> final(ir)@.has(id),
        old(ir)@.extended_by(final(ir)@),
    decreases type_id.0,
{
    let ghost g = ir@;
    proof {
        lemma_parts_below(base, type_id);
        lemma_same_node(base, g, type_id);
    }
    if is_struct_type(ir, type_id) {
        return struct_type_field(ir, type_id, field);
    }
    if is_tagged_union_type(ir, type_id) {
        assert(tag_field(g, type_id) == tag_field(base, type_id));
        assert(variants(g, type_id) == variants(base, type_id));
        let tf = match tagged_union_tag_field(ir, type_id) {
            Some(f) => f,
            None => return None,
        };
        let (tags, structs) = match tagged_union_variants(ir, type_id) {
            Some(v) => v,
            None => return None,
        };
        proof {
            lemma_same_node(base, g, tf);
        }
        let on_tag = match name_str(ir, tf) {
            Some(n) => str_eq(n, ir.resolve_name(field)),
            None => return None,
        };
        if on_tag {
            ir.intern_name(FN_SINGLETON);
            let ghost h = ir@;
            let mut ids: Vec<InstId> = Vec::new();
            let mut k: usize = 0;
            while k < tags.len()
                invariant
                    ir@.wf(),
                    h.extended_by(ir@),
                    k <= tags@.len(),
                    (ir@, ids@) == singletons(h, tags@, k as nat),
                    ids_below(ids@, ir@.nodes.len()),
                decreases tags@.len() - k,
            {
                let one: Vec<InstId> = vec![tags[k]];
                assert(one@ =~= seq![tags@[k as int]]);
                let id = add_apply(ir, FN_SINGLETON, one);
                ids.push(id);
                k += 1;
            }
            return Some(new_union_or_single(ir, ids));
        }
        let mut types: Vec<InstId> = Vec::new();
        let mut k: usize = 0;
        while k < structs.len()
            invariant
                ir@ == g,
                k <= structs@.len(),
                types@ == field_types(g, structs@, field, k as nat),
                ids_below(types@, g.nodes.len()),
            decreases structs@.len() - k,
        {
            if let Some(t) = struct_type_field(ir, structs[k], field) {
                types.push(t);
            }
            k += 1;
        }
        if types.len() == 0 {
            return None;
        }
        let ctx = TypeContext::new();
        proof {
            lemma_grounded_empty(ir@);
        }
        return Some(upper_bound(ir, &ctx, types.as_slice()));
    }
    let mut alts: Option<Vec<InstId>> = None;
    if let Some(args) = union_type_args(ir, type_id) {
        alts = Some(copy_ids(args));
    }
    if let Some(args) = alts {
        assert(args@ == parts(base, type_id));
        let mut types: Vec<InstId> = Vec::new();
        let mut k: usize = 0;
        while k < args.len()
            invariant
                ir@.wf(),
                g.extended_by(ir@),
                k <= args@.len(),
                (ir@, Some(types@)) == fields_deep(base, g, type_id, field, k as nat),
                ids_below(types@, ir@.nodes.len()),
            decreases args@.len() - k,
        {
            assert(args@[k as int] == parts(base, type_id)[k as int]);
            match field_deep_from(ir, args[k], field, Ghost(base)) {
                Some(t) => {
                    types.push(t);
                },
                None => {
                    proof {
                        lemma_missing_stays(
                            base,
                            g,
                            type_id,
                            field,
                            (k + 1) as nat,
                            parts(base, type_id).len(),
                        );
                    }
                    return None;
                },
            }
            k += 1;
        }
        if types.len() == 0 {
            return None;
        }
        let ctx = TypeContext::new();
        proof {
            lemma_grounded_empty(ir@);
        }
        return Some(upper_bound(ir, &ctx, types.as_slice()));
    }
    None
}

/// Once an alternative lacks the field, the rest is not looked at.
proof fn lemma_missing_stays(base: Graph, g: Graph, t: InstId, field: NameId, k: nat, n: nat)
    requires
        base.wf(),
        base.has(t),
        k <= n <= parts(base, t).len(),
        fields_deep(base, g, t, field, k).1 is None,
    ensures
        fields_deep(base, g, t, field, n) == fields_deep(base, g, t, field, k),
    decreases n,
{
    if k < n {
        lemma_missing_stays(base, g, t, field, k, (n - 1) as nat);
    }
}

/// The type of a struct field by name. A field of a union or of a tagged union has
/// the upper bound of its types in the alternatives; it must be there in each
/// alternative of a union.
pub fn struct_type_field_deep(ir: &mut Ir, type_id: InstId, field: NameId) -> (r: Option<InstId>)
    requires
        old(ir)@.wf(),
        old(ir)@.has(type_id),
        old(ir)@.has_name(field),
    ensures
        final(ir)@.wf(),
        (final(ir)@, r) == field_deep(old(ir)@, old(ir)@, type_id, field),
        r matches Some(id) ==> final(ir)@.has(id),
        old(ir)@.extended_by(final(ir)@),
{
    let ghost base = ir@;
    field_deep_from(ir, type_id, field, Ghost(base))
}

/// The structs that the first `n` variants expand to, and the graph that holds
/// them: the tag field with the singleton of the tag, and the variant's fields.
pub open spec fn expanded(g: Graph, field: InstId, tags: Seq<InstId>, structs: Seq<InstId>, n: nat) -> (Graph, Seq<InstId>)
    decreases n,
{
    if n == 0 {
        (g, Seq::empty())
    } else {
        let (h, ids) = expanded(g, field, tags, structs, (n - 1) as nat);
        let k = with_apply(h, FN_SINGLETON@, seq![tags[n - 1]]);
        (
            with_apply(k, FN_STRUCT@, seq![field, h.next()] + parts(g, structs[n - 1])),
            ids.push(k.next()),
        )
    }
}

/// The expansion of a tagged union, and the graph that holds it.
pub open spec fn expansion(g: Graph, tu: InstId) -> Result<(Graph, InstId), TypeError> {
    match fn_args(g, tu) {
        Some(args) => if tagged_arity(args.len()) {
            let h = g.with_name(FN_SINGLETON@).with_name(FN_STRUCT@).with_name(FN_UNION@);
            let (k, ids) = expanded(h, args[0], tags_of(args), structs_of(args), args.len() / 2);
            Ok((with_apply(k, FN_UNION@, ids), k.next()))
        } else {
            Err(TypeError::TaggedUnionArity)
        },
        None => Err(TypeError::NotTaggedUnion),
    }
}

/// The arguments of a tagged union, or why it is none.
fn tagged_args(ir: &Ir, tu: InstId) -> (r: Result<Vec<InstId>, TypeError>)
    requires
        ir@.wf(),
        ir@.has(tu),
    ensures
        match fn_args(ir@, tu) {
            Some(args) => if tagged_arity(args.len()) {
                r matches Ok(v) && v@ == args && ids_below(args, tu.0 as nat)
            } else {
                r == Err::<Vec<InstId>, TypeError>(TypeError::TaggedUnionArity)
            },
            None => r == Err::<Vec<InstId>, TypeError>(TypeError::NotTaggedUnion),
        },
{
    match apply_fn_args(ir, tu) {
        Some(args) => if args.len() < 3 || args.len() % 2 == 0 {
            Err(TypeError::TaggedUnionArity)
        } else {
            Ok(copy_ids(args))
        },
        None => Err(TypeError::NotTaggedUnion),
    }
}

/// The arguments of an application, none of anything else.
fn args_or_none(ir: &Ir, id: InstId) -> (r: Vec<InstId>)
    requires
        ir@.wf(),
        ir@.has(id),
    ensures
        r@ == parts(ir@, id),
        ids_below(r@, id.0 as nat),
{
    match apply_fn_args(ir, id) {
        Some(args) => copy_ids(args),
        None => {
            let v: Vec<InstId> = Vec::new();
            assert(v@ =~= parts(ir@, id));
            v
        },
    }
}

/// Expands `fn:TaggedUnion(field, tag1, struct1, ...)` into
/// `fn:Union(fn:Struct(field, fn:Singleton(tag1), ...fields1), ...)`.
#[verifier::rlimit(80)]
#[verifier::spinoff_prover]
pub fn expand_tagged_union_type(ir: &mut Ir, tu_id: InstId) -> (r: Result<InstId, TypeError>)
    requires
        old(ir)@.wf(),
        old(ir)@.has(tu_id),
    ensures
        final(ir)@.wf(),
        old(ir)@.extended_by(final(ir)@),
        match expansion(old(ir)@, tu_id) {
            Ok((g, id)) => final(ir)@ == g && r == Ok::<InstId, TypeError>(id) && g.has(id),
            Err(e) => final(ir)@ == old(ir)@ && r == Err::<InstId, TypeError>(e),
        },
{
    let ghost g = ir@;
    let args = match tagged_args(ir, tu_id) {
        Ok(args) => args,
        Err(e) => return Err(e),
    };
    let field = args[0];
    let (tags, structs) = split_variants(args.as_slice());
    ir.intern_name(FN_SINGLETON);
    ir.intern_name(FN_STRUCT);
    ir.intern_name(FN_UNION);
    let ghost h = ir@;
    let mut ids: Vec<InstId> = Vec::new();
    let mut k: usize = 0;
    while k < tags.len()
        invariant
            ir@.wf(),
            h.extended_by(ir@),
            h.nodes.len() <= ir@.nodes.len(),
            k <= tags@.len(),
            (ir@, ids@) == expanded(h, field, tags@, structs@, k as nat),
            ids_below(ids@, ir@.nodes.len()),
        decreases tags@.len() - k,
    {
        let ghost before = ir@;
        assert(tags@[k as int] == args@[2 * k + 1]);
        assert(structs@[k as int] == args@[2 * k + 2]);
        let one: Vec<InstId> = vec![tags[k]];
        assert(one@ =~= seq![tags@[k as int]]);
        let singleton = add_apply(ir, FN_SINGLETON, one);
        proof {
            lemma_same_node(h, ir@, structs@[k as int]);
        }
        let mut fields = args_or_none(ir, structs[k]);
        let mut new_args: Vec<InstId> = vec![field, singleton];
        new_args.append(&mut fields);
        assert(new_args@ =~= seq![field, before.next()] + parts(h, structs@[k as int]));
        let id = add_apply(ir, FN_STRUCT, new_args);
        ids.push(id);
        k += 1;
    }
    Ok(add_apply(ir, FN_UNION, ids))
}

/// The structs that the first `n` variants expand to, with `name` for the type of
/// the tag field, and the graph that holds them.
pub open spec fn widened(g: Graph, field: InstId, name: InstId, structs: Seq<InstId>, n: nat) -> (Graph, Seq<InstId>)
    decreases n,
{
    if n == 0 {
        (g, Seq::empty())
    } else {
        let (h, ids) = widened(g, field, name, structs, (n - 1) as nat);
        (
            with_apply(h, FN_STRUCT@, seq![field, name] + parts(g, structs[n - 1])),
            ids.push(h.next()),
        )
    }
}

/// The expansion of a tagged union with tags of type `/name`, and the graph that
/// holds it.
pub open spec fn wide_expansion(g: Graph, tu: InstId) -> Result<(Graph, InstId), TypeError> {
    match fn_args(g, tu) {
        Some(args) => if tagged_arity(args.len()) {
            let a = g.with_name("/name"@).with_node(Node::Name(g.name_id("/name"@)));
            let h = a.with_name(FN_STRUCT@).with_name(FN_UNION@);
            let (k, ids) = widened(h, args[0], g.next(), structs_of(args), args.len() / 2);
            Ok((with_apply(k, FN_UNION@, ids), k.next()))
        } else {
            Err(TypeError::TaggedUnionArity)
        },
        None => Err(TypeError::NotTaggedUnion),
    }
}

/// Expands a tagged union with `/name` for the type of the tag field, which is
/// what is inferred for the name constants of facts.
pub fn expand_tagged_union_for_bounds(ir: &mut Ir, tu_id: InstId) -> (r: Result<InstId, TypeError>)
    requires
        old(ir)@.wf(),
        old(ir)@.has(tu_id),
    ensures
        final(ir)@.wf(),
        old(ir)@.extended_by(final(ir)@),
        match wide_expansion(old(ir)@, tu_id) {
            Ok((g, id)) => final(ir)@ == g && r == Ok::<InstId, TypeError>(id) && g.has(id),
            Err(e) => final(ir)@ == old(ir)@ && r == Err::<InstId, TypeError>(e),
        },
{
    let ghost g = ir@;
    let args = match tagged_args(ir, tu_id) {
        Ok(args) => args,
        Err(e) => return Err(e),
    };
    let field = args[0];
    let (_tags, structs) = split_variants(args.as_slice());
    let n = ir.intern_name("/name");
    let name = ir.add_inst(Inst::Name(n));
    ir.intern_name(FN_STRUCT);
    ir.intern_name(FN_UNION);
    let ghost h = ir@;
    let mut ids: Vec<InstId> = Vec::new();
    let mut k: usize = 0;
    while k < structs.len()
        invariant
            ir@.wf(),
            h.extended_by(ir@),
            h.nodes.len() <= ir@.nodes.len(),
            k <= structs@.len(),
            (ir@, ids@) == widened(h, field, name, structs@, k as nat),
            ids_below(ids@, ir@.nodes.len()),
        decreases structs@.len() - k,
    {
        assert(structs@[k as int] == args@[2 * k + 2]);
        proof {
            lemma_same_node(h, ir@, structs@[k as int]);
        }
        let mut fields = args_or_none(ir, structs[k]);
        let mut new_args: Vec<InstId> = vec![field, name];
        new_args.append(&mut fields);
        assert(new_args@ =~= seq![field, name] + parts(h, structs@[k as int]));
        let id = add_apply(ir, FN_STRUCT, new_args);
        ids.push(id);
        k += 1;
    }
    Ok(add_apply(ir, FN_UNION, ids))
}

/// The type `id` of `base` with its variables replaced, and the graph that holds it.
pub open spec fn substituted(base: Graph, g: Graph, id: InstId, s: Map<NameId, InstId>) -> (Graph, InstId)
    decreases id.0, 1nat, 0nat,
    when base.wf() && base.has(id)
{
    match base.node(id) {
        Node::Var(v) => if s.contains_key(v) {
            (g, s[v])
        } else {
            (g, id)
        },
        Node::ApplyFn { function, args } => {
            let (h, ids) = substituted_parts(base, g, id, s, args.len());
            if ids == args {
                (h, id)
            } else {
                (h.with_node(Node::ApplyFn { function, args: ids }), h.next())
            }
        },
        _ => (g, id),
    }
}

/// The first `n` parts with their variables replaced, and the graph that holds them.
pub open spec fn substituted_parts(base: Graph, g: Graph, id: InstId, s: Map<NameId, InstId>, n: nat) -> (Graph, Seq<InstId>)
    decreases id.0, 0nat, n,
    when base.wf() && base.has(id) && n <= parts(base, id).len()
{
    proof {
        lemma_parts_below(base, id);
    }
    if n == 0 {
        (g, Seq::empty())
    } else {
        let (h, ids) = substituted_parts(base, g, id, s, (n - 1) as nat);
        let (k, a) = substituted(base, h, parts(base, id)[n - 1], s);
        (k, ids.push(a))
    }
}

/// Whether two lists of ids are equal.
pub(crate) fn same_ids(a: &Vec<InstId>, b: &Vec<InstId>) -> (r: bool)
    ensures
        r == (a@ == b@),
{
    if a.len() != b.len() {
        return false;
    }
    let mut i: usize = 0;
    while i < a.len()
        invariant
            i <= a@.len(),
            a@.len() == b@.len(),
            forall|j: int| 0 <= j < i ==> a@[j] == b@[j],
        decreases a@.len() - i,
    {
        if a[i] != b[i] {
            assert(a@[i as int] != b@[i as int]);
            return false;
        }
        i += 1;
    }
    assert(a@ =~= b@);
    true
}

/// Replaces the variables of a type of an earlier graph.
fn subst_from(ir: &mut Ir, id: InstId, subst: &NameMap<InstId>, Ghost(base): Ghost<Graph>) -> (r: InstId)
    requires
        base.wf(),
        base.has(id),
        base.extended_by(old(ir)@),
        old(ir)@.wf(),
        forall|v: NameId| #[trigger] subst@.contains_key(v) ==> base.has(subst@[v]),
    ensures
        final(ir)@.wf(),
        (final(ir)@, r) == substituted(base, old(ir)@, id, subst@),
        final(ir)@.has(r),
        old(ir)@.extended_by(final(ir)@),
    decreases id.0,
{
    let ghost g = ir@;
    proof {
        lemma_parts_below(base, id);
        lemma_same_node(base, g, id);
        assert(base.nodes[id.0 as int].fits(id.0 as nat, base.names.len(), base.strings.len()));
    }
    let (function, args) = match ir.get(id) {
        Inst::Var(v) => {
            return match subst.get(*v) {
                Some(t) => *t,
                None => id,
            };
        },
        Inst::ApplyFn { function, args } => (*function, copy_ids(args.as_slice())),
        _ => return id,
    };
    let mut ids: Vec<InstId> = Vec::new();
    let mut k: usize = 0;
    while k < args.len()
        invariant
            ir@.wf(),
            g.extended_by(ir@),
            k <= args@.len(),
            (ir@, ids@) == substituted_parts(base, g, id, subst@, k as nat),
            ids_below(ids@, ir@.nodes.len()),
        decreases args@.len() - k,
    {
        assert(args@[k as int] == parts(base, id)[k as int]);
        let a = subst_from(ir, args[k], subst, Ghost(base));
        ids.push(a);
        k += 1;
    }
    if same_ids(&ids, &args) {
        return id;
    }
    ir.add_inst(Inst::ApplyFn { function, args: ids })
}

/// Applies a substitution of types for variables to a type.
pub fn apply_subst(ir: &mut Ir, id: InstId, subst: &NameMap<InstId>) -> (r: InstId)
    requires
        old(ir)@.wf(),
        old(ir)@.has(id),
        forall|v: NameId| #[trigger] subst@.contains_key(v) ==> old(ir)@.has(subst@[v]),
    ensures
        final(ir)@.wf(),
        (final(ir)@, r) == substituted(old(ir)@, old(ir)@, id, subst@),
        final(ir)@.has(r),
        old(ir)@.extended_by(final(ir)@),
{
    let ghost base = ir@;
    subst_from(ir, id, subst, Ghost(base))
}

/// The variables of a type, in the order in which they first occur.
pub open spec fn vars_in(g: Graph, id: InstId, so_far: Seq<NameId>) -> Seq<NameId>
    decreases id.0, 1nat, 0nat,
    when g.wf() && g.has(id)
{
    match g.node(id) {
        Node::Var(v) => if so_far.contains(v) {
            so_far
        } else {
            so_far.push(v)
        },
        Node::ApplyFn { args, .. } => vars_in_parts(g, id, so_far, args.len()),
        _ => so_far,
    }
}

/// The variables of the first `n` parts of a type.
pub open spec fn vars_in_parts(g: Graph, id: InstId, so_far: Seq<NameId>, n: nat) -> Seq<NameId>
    decreases id.0, 0nat, n,
    when g.wf() && g.has(id) && n <= parts(g, id).len()
{
    proof {
        lemma_parts_below(g, id);
    }
    if n == 0 {
        so_far
    } else {
        vars_in(g, parts(g, id)[n - 1], vars_in_parts(g, id, so_far, (n - 1) as nat))
    }
}

/// Collects the variables of a type after those that are already there, each once
/// and in the order in which they first occur.
pub fn collect_vars(ir: &Ir, id: InstId, vars: &mut Vec<NameId>)
    requires
        ir@.wf(),
        ir@.has(id),
    ensures
        final(vars)@ == vars_in(ir@, id, old(vars)@),
    decreases id.0,
{
    proof {
        lemma_parts_below(ir@, id);
    }
    match ir.get(id) {
        Inst::Var(v) => {
            let mut i: usize = 0;
            let mut found: bool = false;
            let ghost before = vars@;
            while i < vars.len()
                invariant
                    vars@ == before,
                    i <= vars@.len(),
                    found == (exists|j: int| 0 <= j < i && #[trigger] vars@[j] == *v),
                decreases vars@.len() - i,
            {
                if vars[i] == *v {
                    found = true;
                }
                i += 1;
            }
            assert(found == before.contains(*v));
            if !found {
                vars.push(*v);
            }
        },
        Inst::ApplyFn { args, .. } => {
            let ghost before = vars@;
            let mut k: usize = 0;
            while k < args.len()
                invariant
                    k <= args@.len(),
                    vars@ == vars_in_parts(ir@, id, before, k as nat),
                decreases args@.len() - k,
            {
                assert(args@[k as int] == parts(ir@, id)[k as int]);
                collect_vars(ir, args[k], vars);
                k += 1;
            }
        },
        _ => {},
    }
}

/// The context that binds each of `vars` to `bound`.
pub open spec fn all_bound(vars: Seq<NameId>, bound: InstId) -> Map<NameId, InstId> {
    Map::new(|v: NameId| vars.contains(v), |v: NameId| bound)
}

/// The context of a type: each of its variables is bound to `/any`.
pub fn get_type_context(ir: &mut Ir, id: InstId) -> (ctx: TypeContext)
    requires
        old(ir)@.wf(),
        old(ir)@.has(id),
    ensures
        final(ir)@.wf(),
        old(ir)@.extended_by(final(ir)@),
        final(ir)@ == name_node(old(ir)@, "/any"@).0,
        ctx@ == all_bound(
            vars_in(old(ir)@, id, Seq::empty()),
            name_node(old(ir)@, "/any"@).1,
        ),
        crate::conform::grounded(final(ir)@, ctx@),
{
    let mut vars: Vec<NameId> = Vec::new();
    collect_vars(ir, id, &mut vars);
    assert(vars@ == vars_in(ir@, id, Seq::empty()));
    let any = find_or_create_name(ir, "/any");
    let mut ctx = TypeContext::new();
    let mut i: usize = 0;
    assert(ctx@ =~= all_bound(vars@.take(0), any));
    while i < vars.len()
        invariant
            i <= vars@.len(),
            ctx@ == all_bound(vars@.take(i as int), any),
        decreases vars@.len() - i,
    {
        ctx.insert(vars[i], any);
        assert forall|v: NameId| #[trigger]
            vars@.take(i + 1).contains(v) == (vars@.take(i as int).contains(v) || v == vars@[i as int]) by {
            if vars@.take(i as int).contains(v) {
                let j = vars@.take(i as int).index_of(v);
                assert(vars@.take(i + 1)[j] == v);
            }
            assert(vars@.take(i + 1)[i as int] == vars@[i as int]);
            if vars@.take(i + 1).contains(v) && v != vars@[i as int] {
                let j = vars@.take(i + 1).index_of(v);
                assert(vars@.take(i as int)[j] == v);
            }
        }
        assert forall|v: NameId| #[trigger]
            ctx@.contains_key(v) == all_bound(vars@.take(i + 1), any).contains_key(v) by {
            assert(vars@.take(i + 1).contains(v) == (vars@.take(i as int).contains(v) || v
                == vars@[i as int]));
        }
        assert(ctx@ =~= all_bound(vars@.take(i + 1), any));
        i += 1;
    }
    assert(vars@.take(vars@.len() as int) =~= vars@);
    proof {
        lemma_grounded_names(ir@, ctx@);
    }
    ctx
}

} // verus!
