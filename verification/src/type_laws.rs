//! What holds of conformance and of the bounds of types.
use vstd::prelude::*;

use crate::conform::{
    conforms, field_conforms, fields_conform, grounded, has_base_type, height, last_field,
    gives_names, lemma_parts_low, lies_under, parts, parts_conform, same_constant, shape_conforms,
    struct_in_variant, takes_names, variant_conforms, variant_field_conforms, variant_fields_conform,
};
use crate::ir::{ids_below, Graph, InstId, NameId, Node};
use crate::type_bounds::{lemma_grounded_empty, lemma_grounded_grows};
use crate::type_bounds::{absorb, flatten, intersection, intersections, narrowed, not_under, reduced, replaced, upper, without};
use crate::type_expr::{
    alternatives, empty_node, fields_from, first_node, name_node, union_node, with_apply, fn_name,
    is_fn, is_name, name_text, struct_fields, tag_field, variants, FN_EMPTY_TYPE, FN_LIST, FN_MAP,
    FN_PAIR, FN_SINGLETON, FN_STRUCT, FN_TAGGED_UNION, FN_TUPLE, FN_UNION,
};
use crate::type_ops::{lemma_parts_below, lemma_same_node};

verus! {

/// The graph and a later one, with a context of the first.
pub open spec fn grows(g: Graph, later: Graph, ctx: Map<NameId, InstId>) -> bool {
    &&& g.wf()
    &&& later.wf()
    &&& g.extended_by(later)
    &&& grounded(g, ctx)
}

/// What an instruction is stays when the graph grows.
pub proof fn lemma_same(g: Graph, later: Graph, ctx: Map<NameId, InstId>, id: InstId)
    requires
        grows(g, later, ctx),
        g.has(id),
    ensures
        later.has(id),
        later.node(id) == g.node(id),
        parts(later, id) == parts(g, id),
        name_text(later, id) == name_text(g, id),
        fn_name(later, id) == fn_name(g, id),
        variants(later, id) == variants(g, id),
        tag_field(later, id) == tag_field(g, id),
        struct_fields(later, id) == struct_fields(g, id),
        forall|t: Seq<char>| is_fn(later, id, t) == is_fn(g, id, t),
{
    lemma_same_node(g, later, id);
    assert(g.nodes[id.0 as int].fits(id.0 as nat, g.names.len(), g.strings.len()));
    if let Node::ApplyFn { function, args } = g.node(id) {
        assert(g.names[function.0 as int] == later.names[function.0 as int]);
        lemma_same_fields(g, later, args, 0);
    }
}

/// The fields that arguments give stay when the graph grows.
proof fn lemma_same_fields(g: Graph, later: Graph, args: Seq<InstId>, i: int)
    requires
        g.wf(),
        g.extended_by(later),
        ids_below(args, g.nodes.len()),
    ensures
        fields_from(later, args, i) == fields_from(g, args, i),
    decreases args.len() - i,
{
    if 0 <= i < args.len() {
        lemma_same_node(g, later, args[i]);
        lemma_same_fields(g, later, args, i + 1);
        if i + 1 < args.len() {
            lemma_same_fields(g, later, args, i + 2);
        }
    }
}

/// The field that is found stays when the graph grows.
proof fn lemma_same_last(g: Graph, later: Graph, fields: Seq<(InstId, InstId, bool)>, name: Seq<char>)
    requires
        g.wf(),
        g.extended_by(later),
        forall|k: int| 0 <= k < fields.len() ==> g.has((#[trigger] fields[k]).0),
    ensures
        last_field(later, fields, name) == last_field(g, fields, name),
    decreases fields.len(),
{
    if fields.len() > 0 {
        lemma_same_node(g, later, fields.last().0);
        assert forall|k: int| 0 <= k < fields.drop_last().len() implies g.has(
            (#[trigger] fields.drop_last()[k]).0,
        ) by {
            assert(fields.drop_last()[k] == fields[k]);
        }
        lemma_same_last(g, later, fields.drop_last(), name);
    }
}

/// Equality and base types of constants stay when the graph grows.
pub proof fn lemma_same_constants(g: Graph, later: Graph, a: InstId, b: InstId)
    requires
        g.wf(),
        g.extended_by(later),
        g.has(a),
        g.has(b),
    ensures
        same_constant(later, a, b) == same_constant(g, a, b),
        has_base_type(later, a, b) == has_base_type(g, a, b),
{
    lemma_same_node(g, later, a);
    lemma_same_node(g, later, b);
    if let Node::Name(n) = g.node(a) {
        assert(g.nodes[a.0 as int].fits(a.0 as nat, g.names.len(), g.strings.len()));
        assert(g.names[n.0 as int] == later.names[n.0 as int]);
    }
}

/// Whether one type conforms to another does not change when the graph grows.
pub proof fn conformance_is_stable(
    g: Graph,
    later: Graph,
    ctx: Map<NameId, InstId>,
    left: InstId,
    right: InstId,
)
    requires
        g.wf(),
        later.wf(),
        g.extended_by(later),
        grounded(g, ctx),
        g.has(left),
        g.has(right),
    ensures
        conforms(later, ctx, left, right) == conforms(g, ctx, left, right),
    decreases height(g, ctx, left) + height(g, ctx, right), 3nat,
{
    lemma_grounded_grows(g, later, ctx);
    lemma_same(g, later, ctx, left);
    lemma_same(g, later, ctx, right);
    lemma_parts_low(g, ctx, left);
    lemma_parts_low(g, ctx, right);
    if left == right || is_name(g, right, "/any"@) || is_name(g, left, "/bot"@) {
    } else if is_fn(g, left, FN_TAGGED_UNION@) {
        if let Some((tags, structs)) = variants(g, left) {
            assert forall|k: int| 0 <= k < structs.len() implies variant_conforms(
                later,
                ctx,
                tag_field(g, left).unwrap(),
                tags[k],
                #[trigger] structs[k],
                right,
            ) == variant_conforms(g, ctx, tag_field(g, left).unwrap(), tags[k], structs[k], right) by {
                assert(g.has(structs[k]));
                assert(g.has(tags[k]));
                lemma_variant(g, later, ctx, tag_field(g, left).unwrap(), tags[k], structs[k], right);
            }
        }
    } else if is_fn(g, left, FN_UNION@) {
        assert forall|k: int| 0 <= k < parts(g, left).len() implies conforms(
            later,
            ctx,
            #[trigger] parts(g, left)[k],
            right,
        ) == conforms(g, ctx, parts(g, left)[k], right) by {
            conformance_is_stable(g, later, ctx, parts(g, left)[k], right);
        }
    } else if is_fn(g, right, FN_TAGGED_UNION@) {
        if g.node(left) is Var && ctx.contains_key(g.node(left)->Var_0) {
            conformance_is_stable(g, later, ctx, ctx[g.node(left)->Var_0], right);
        } else if let Some((tags, structs)) = variants(g, right) {
            let field = tag_field(g, right).unwrap();
            assert forall|k: int| 0 <= k < structs.len() implies struct_in_variant(
                later,
                ctx,
                left,
                field,
                #[trigger] structs[k],
            ) == struct_in_variant(g, ctx, left, field, structs[k]) by {
                assert(g.has(structs[k]));
                lemma_in_variant(g, later, ctx, left, field, structs[k]);
            }
        }
    } else if is_fn(g, right, FN_UNION@) {
        assert forall|k: int| 0 <= k < parts(g, right).len() implies conforms(
            later,
            ctx,
            left,
            #[trigger] parts(g, right)[k],
        ) == conforms(g, ctx, left, parts(g, right)[k]) by {
            conformance_is_stable(g, later, ctx, left, parts(g, right)[k]);
        }
    } else {
        lemma_shape(g, later, ctx, left, right);
    }
}

/// Pairwise conformance of parts stays when the graph grows.
proof fn lemma_pairs(
    g: Graph,
    later: Graph,
    ctx: Map<NameId, InstId>,
    left: InstId,
    right: InstId,
    from: int,
)
    requires
        grows(g, later, ctx),
        g.has(left),
        g.has(right),
    ensures
        parts_conform(later, ctx, left, right, from) == parts_conform(g, ctx, left, right, from),
    decreases height(g, ctx, left) + height(g, ctx, right), 1nat,
{
    lemma_grounded_grows(g, later, ctx);
    lemma_same(g, later, ctx, left);
    lemma_same(g, later, ctx, right);
    lemma_parts_low(g, ctx, left);
    lemma_parts_low(g, ctx, right);
    assert forall|k: int|
        0 <= k < parts(g, left).len() && k < parts(g, right).len() implies conforms(
        later,
        ctx,
        #[trigger] parts(g, left)[k],
        #[trigger] parts(g, right)[k],
    ) == conforms(g, ctx, parts(g, left)[k], parts(g, right)[k]) by {
        conformance_is_stable(g, later, ctx, parts(g, left)[k], parts(g, right)[k]);
    }
}

/// Conformance of types that are no unions stays when the graph grows.
proof fn lemma_shape(g: Graph, later: Graph, ctx: Map<NameId, InstId>, left: InstId, right: InstId)
    requires
        grows(g, later, ctx),
        g.has(left),
        g.has(right),
    ensures
        shape_conforms(later, ctx, left, right) == shape_conforms(g, ctx, left, right),
    decreases height(g, ctx, left) + height(g, ctx, right), 2nat,
{
    lemma_grounded_grows(g, later, ctx);
    lemma_same(g, later, ctx, left);
    lemma_same(g, later, ctx, right);
    lemma_parts_low(g, ctx, left);
    lemma_parts_low(g, ctx, right);
    lemma_pairs(g, later, ctx, left, right, 0);
    lemma_pairs(g, later, ctx, right, left, 1);
    if parts(g, left).len() > 0 {
        lemma_same_constants(g, later, parts(g, left)[0], right);
        if parts(g, right).len() > 0 {
            conformance_is_stable(g, later, ctx, parts(g, left)[0], parts(g, right)[0]);
        }
    }
    if g.node(left) is Var && ctx.contains_key(g.node(left)->Var_0) {
        conformance_is_stable(g, later, ctx, ctx[g.node(left)->Var_0], right);
    }
    if g.node(right) is Var && ctx.contains_key(g.node(right)->Var_0) {
        conformance_is_stable(g, later, ctx, left, ctx[g.node(right)->Var_0]);
    }
    if parts(g, left).len() > 0 && parts(g, right).len() > 0 {
        lemma_same_constants(g, later, parts(g, left)[0], parts(g, right)[0]);
    }
    lemma_fields(g, later, ctx, left, right);
}

/// Conformance of structs field by field stays when the graph grows.
proof fn lemma_fields(g: Graph, later: Graph, ctx: Map<NameId, InstId>, left: InstId, right: InstId)
    requires
        grows(g, later, ctx),
        g.has(left),
        g.has(right),
    ensures
        fields_conform(later, ctx, left, right) == fields_conform(g, ctx, left, right),
    decreases height(g, ctx, left) + height(g, ctx, right), 1nat,
{
    lemma_grounded_grows(g, later, ctx);
    lemma_same(g, later, ctx, left);
    lemma_same(g, later, ctx, right);
    lemma_parts_low(g, ctx, left);
    lemma_parts_low(g, ctx, right);
    let lf = struct_fields(g, left);
    let rf = struct_fields(g, right);
    crate::conform::lemma_field(g, ctx, left);
    crate::conform::lemma_field(g, ctx, right);
    assert forall|k: int| 0 <= k < rf.len() implies field_conforms(later, ctx, left, #[trigger] rf[k])
        == field_conforms(g, ctx, left, rf[k]) by {
        assert(g.has(rf[k].0));
        lemma_same_node(g, later, rf[k].0);
        if let Some(n) = name_text(g, rf[k].0) {
            lemma_same_last(g, later, lf, n);
            if let Some(t) = last_field(g, lf, n) {
                conformance_is_stable(g, later, ctx, t, rf[k].1);
            }
        }
    }
}

/// Whether `/name` conforms to a type stays when the graph grows.
proof fn lemma_takes_names(g: Graph, later: Graph, ctx: Map<NameId, InstId>, right: InstId)
    requires
        grows(g, later, ctx),
        g.has(right),
    ensures
        takes_names(later, ctx, right) == takes_names(g, ctx, right),
    decreases height(g, ctx, right),
{
    lemma_grounded_grows(g, later, ctx);
    lemma_same(g, later, ctx, right);
    lemma_parts_low(g, ctx, right);
    assert forall|k: int| 0 <= k < parts(g, right).len() implies takes_names(
        later,
        ctx,
        #[trigger] parts(g, right)[k],
    ) == takes_names(g, ctx, parts(g, right)[k]) by {
        lemma_takes_names(g, later, ctx, parts(g, right)[k]);
    }
    if g.node(right) is Var && ctx.contains_key(g.node(right)->Var_0) {
        lemma_takes_names(g, later, ctx, ctx[g.node(right)->Var_0]);
    }
}

/// Whether a type conforms to `/name` stays when the graph grows.
proof fn lemma_gives_names(g: Graph, later: Graph, ctx: Map<NameId, InstId>, left: InstId)
    requires
        grows(g, later, ctx),
        g.has(left),
    ensures
        gives_names(later, ctx, left) == gives_names(g, ctx, left),
    decreases height(g, ctx, left),
{
    lemma_grounded_grows(g, later, ctx);
    lemma_same(g, later, ctx, left);
    lemma_parts_low(g, ctx, left);
    assert forall|k: int| 0 <= k < parts(g, left).len() implies gives_names(
        later,
        ctx,
        #[trigger] parts(g, left)[k],
    ) == gives_names(g, ctx, parts(g, left)[k]) by {
        lemma_gives_names(g, later, ctx, parts(g, left)[k]);
    }
    if parts(g, left).len() == 1 {
        assert(g.has(parts(g, left)[0]));
        lemma_same_node(g, later, parts(g, left)[0]);
    }
    if g.node(left) is Var && ctx.contains_key(g.node(left)->Var_0) {
        lemma_gives_names(g, later, ctx, ctx[g.node(left)->Var_0]);
    }
}

/// Conformance to a variant stays when the graph grows.
proof fn lemma_in_variant(
    g: Graph,
    later: Graph,
    ctx: Map<NameId, InstId>,
    left: InstId,
    field: InstId,
    variant: InstId,
)
    requires
        grows(g, later, ctx),
        g.has(left),
        g.has(field),
        g.has(variant),
    ensures
        struct_in_variant(later, ctx, left, field, variant) == struct_in_variant(
            g,
            ctx,
            left,
            field,
            variant,
        ),
    decreases height(g, ctx, left) + height(g, ctx, variant), 2nat,
{
    lemma_grounded_grows(g, later, ctx);
    lemma_same(g, later, ctx, left);
    lemma_same(g, later, ctx, field);
    lemma_same(g, later, ctx, variant);
    lemma_parts_low(g, ctx, left);
    crate::conform::lemma_field(g, ctx, left);
    if let Some(n) = name_text(g, field) {
        lemma_same_last(g, later, struct_fields(g, left), n);
        if let Some(t) = last_field(g, struct_fields(g, left), n) {
            lemma_gives_names(g, later, ctx, t);
        }
    }
    lemma_fields(g, later, ctx, left, variant);
}

/// Conformance of a variant field by field stays when the graph grows.
proof fn lemma_variant_fields(
    g: Graph,
    later: Graph,
    ctx: Map<NameId, InstId>,
    field: InstId,
    variant: InstId,
    right: InstId,
)
    requires
        grows(g, later, ctx),
        g.has(field),
        g.has(variant),
        g.has(right),
    ensures
        variant_fields_conform(later, ctx, field, variant, right) == variant_fields_conform(
            g,
            ctx,
            field,
            variant,
            right,
        ),
    decreases height(g, ctx, variant) + height(g, ctx, right), 1nat,
{
    lemma_grounded_grows(g, later, ctx);
    lemma_same(g, later, ctx, field);
    lemma_same(g, later, ctx, variant);
    lemma_same(g, later, ctx, right);
    lemma_parts_low(g, ctx, variant);
    lemma_parts_low(g, ctx, right);
    let lf = struct_fields(g, variant);
    let rf = struct_fields(g, right);
    crate::conform::lemma_field(g, ctx, variant);
    crate::conform::lemma_field(g, ctx, right);
    assert forall|k: int| 0 <= k < rf.len() implies variant_field_conforms(
        later,
        ctx,
        field,
        variant,
        #[trigger] rf[k],
    ) == variant_field_conforms(g, ctx, field, variant, rf[k]) by {
        assert(g.has(rf[k].0));
        lemma_same_node(g, later, rf[k].0);
        lemma_takes_names(g, later, ctx, rf[k].1);
        if let Some(n) = name_text(g, rf[k].0) {
            lemma_same_last(g, later, lf, n);
            if let Some(t) = last_field(g, lf, n) {
                conformance_is_stable(g, later, ctx, t, rf[k].1);
            }
        }
    }
}

/// Conformance of a variant stays when the graph grows.
proof fn lemma_variant(
    g: Graph,
    later: Graph,
    ctx: Map<NameId, InstId>,
    field: InstId,
    tag: InstId,
    variant: InstId,
    right: InstId,
)
    requires
        grows(g, later, ctx),
        g.has(field),
        g.has(tag),
        g.has(variant),
        g.has(right),
    ensures
        variant_conforms(later, ctx, field, tag, variant, right) == variant_conforms(
            g,
            ctx,
            field,
            tag,
            variant,
            right,
        ),
    decreases height(g, ctx, variant) + height(g, ctx, right), 4nat,
{
    lemma_grounded_grows(g, later, ctx);
    lemma_same(g, later, ctx, right);
    lemma_parts_low(g, ctx, right);
    if is_name(g, right, "/any"@) {
    } else if is_fn(g, right, FN_STRUCT@) {
        lemma_variant_fields(g, later, ctx, field, variant, right);
    } else if is_fn(g, right, FN_TAGGED_UNION@) {
        if let Some((tags, structs)) = variants(g, right) {
            let other = tag_field(g, right).unwrap();
            lemma_same_constants(g, later, field, other);
            assert forall|k: int| 0 <= k < structs.len() implies same_constant(later, tag, tags[k])
                == same_constant(g, tag, tags[k]) && conforms(later, ctx, variant, #[trigger] structs[k])
                == conforms(g, ctx, variant, structs[k]) by {
                assert(g.has(tags[k]));
                lemma_same_constants(g, later, tag, tags[k]);
                conformance_is_stable(g, later, ctx, variant, structs[k]);
            }
        }
    } else if is_fn(g, right, FN_UNION@) {
        assert forall|k: int| 0 <= k < parts(g, right).len() implies variant_conforms(
            later,
            ctx,
            field,
            tag,
            variant,
            #[trigger] parts(g, right)[k],
        ) == variant_conforms(g, ctx, field, tag, variant, parts(g, right)[k]) by {
            lemma_variant(g, later, ctx, field, tag, variant, parts(g, right)[k]);
        }
    } else if g.node(right) is Var && ctx.contains_key(g.node(right)->Var_0) {
        lemma_variant(g, later, ctx, field, tag, variant, ctx[g.node(right)->Var_0]);
    }
}

/// The names of unions, tagged unions, structs and the empty type are different.
pub proof fn lemma_kinds()
    ensures
        FN_UNION@ != FN_TAGGED_UNION@,
        FN_UNION@ != FN_STRUCT@,
        FN_UNION@ != FN_EMPTY_TYPE@,
        FN_TAGGED_UNION@ != FN_STRUCT@,
        FN_TAGGED_UNION@ != FN_EMPTY_TYPE@,
{
    reveal_strlit("fn:Union");
    reveal_strlit("fn:TaggedUnion");
    reveal_strlit("fn:Struct");
    reveal_strlit("fn:EmptyType");
    assert("fn:Union"@.len() == 8);
    assert("fn:TaggedUnion"@.len() == 14);
    assert("fn:Struct"@.len() == 9);
    assert("fn:EmptyType"@.len() == 12);
}

/// Every type conforms to itself and to `/any`, and `/bot` conforms to every type.
pub proof fn conformance_has_ends(g: Graph, ctx: Map<NameId, InstId>, a: InstId, b: InstId)
    requires
        g.wf(),
        grounded(g, ctx),
        g.has(a),
        g.has(b),
    ensures
        conforms(g, ctx, a, a),
        is_name(g, b, "/any"@) ==> conforms(g, ctx, a, b),
        is_name(g, a, "/bot"@) ==> conforms(g, ctx, a, b),
{
}

/// A union conforms to another type exactly where all its alternatives do.
pub proof fn a_union_conforms_by_its_alternatives(
    g: Graph,
    ctx: Map<NameId, InstId>,
    left: InstId,
    right: InstId,
)
    requires
        g.wf(),
        grounded(g, ctx),
        g.has(left),
        g.has(right),
        left != right,
        is_fn(g, left, FN_UNION@),
    ensures
        conforms(g, ctx, left, right) == (forall|k: int|
            0 <= k < parts(g, left).len() ==> conforms(g, ctx, #[trigger] parts(g, left)[k], right)),
{
    lemma_kinds();
    lemma_parts_low(g, ctx, left);
    if is_name(g, right, "/any"@) {
        assert forall|k: int| 0 <= k < parts(g, left).len() implies conforms(
            g,
            ctx,
            #[trigger] parts(g, left)[k],
            right,
        ) by {}
    }
}

/// The type is no union, and if it is a tagged union, its variants are known.
pub open spec fn single(g: Graph, id: InstId) -> bool {
    &&& !is_fn(g, id, FN_UNION@)
    &&& is_fn(g, id, FN_TAGGED_UNION@) ==> variants(g, id) is Some
}

/// The variants of tagged unions are known, in the type and in the alternatives of a union.
pub open spec fn known(g: Graph, ctx: Map<NameId, InstId>, id: InstId) -> bool
    decreases height(g, ctx, id),
    when grounded(g, ctx) && g.wf() && g.has(id)
{
    proof {
        lemma_parts_low(g, ctx, id);
    }
    &&& is_fn(g, id, FN_TAGGED_UNION@) ==> variants(g, id) is Some
    &&& is_fn(g, id, FN_UNION@) ==> forall|k: int|
        0 <= k < parts(g, id).len() ==> known(g, ctx, #[trigger] parts(g, id)[k])
}

/// What conforms to an alternative conforms to the union.
pub proof fn an_alternative_is_enough(
    g: Graph,
    ctx: Map<NameId, InstId>,
    left: InstId,
    right: InstId,
    k: int,
)
    requires
        g.wf(),
        grounded(g, ctx),
        g.has(left),
        g.has(right),
        known(g, ctx, left),
        is_fn(g, right, FN_UNION@),
        0 <= k < parts(g, right).len(),
        conforms(g, ctx, left, parts(g, right)[k]),
    ensures
        conforms(g, ctx, left, right),
    decreases height(g, ctx, left),
{
    lemma_kinds();
    lemma_parts_low(g, ctx, right);
    lemma_parts_low(g, ctx, left);
    let part = parts(g, right)[k];
    if is_fn(g, left, FN_TAGGED_UNION@) && !is_name(g, left, "/bot"@) {
        let (tags, structs) = variants(g, left).unwrap();
        let field = tag_field(g, left).unwrap();
        assert forall|j: int| 0 <= j < structs.len() implies variant_conforms(
            g,
            ctx,
            field,
            tags[j],
            #[trigger] structs[j],
            right,
        ) by {
            assert(g.has(structs[j]));
            if left == part {
                assert(conforms(g, ctx, structs[j], structs[j]));
            }
            assert(variant_conforms(g, ctx, field, tags[j], structs[j], part));
        }
    } else if is_fn(g, left, FN_UNION@) && left != right {
        assert forall|j: int| 0 <= j < parts(g, left).len() implies conforms(
            g,
            ctx,
            #[trigger] parts(g, left)[j],
            right,
        ) by {
            let p = parts(g, left)[j];
            assert(known(g, ctx, p));
            if left == part {
                assert(conforms(g, ctx, p, p));
                an_alternative_is_enough(g, ctx, p, left, j);
            } else {
                a_union_conforms_by_its_alternatives(g, ctx, left, part);
            }
            an_alternative_is_enough(g, ctx, p, right, k);
        }
    }
}

/// The graph is no larger than a machine can hold.
pub open spec fn small(g: Graph) -> bool {
    g.nodes.len() <= usize::MAX && g.names.len() <= usize::MAX
}

/// Adding an application keeps a graph valid.
pub proof fn lemma_apply(g: Graph, text: Seq<char>, args: Seq<InstId>)
    requires
        g.wf(),
        ids_below(args, g.nodes.len()),
        small(with_apply(g, text, args)),
    ensures
        with_apply(g, text, args).wf(),
        g.extended_by(with_apply(g, text, args)),
        with_apply(g, text, args).has(g.next()),
        is_fn(with_apply(g, text, args), g.next(), text),
        parts(with_apply(g, text, args), g.next()) == args,
{
    let named = g.with_name(text);
    let h = with_apply(g, text, args);
    lemma_named(g, text);
    let node = Node::ApplyFn { function: g.name_id(text), args };
    assert(node.fits(named.nodes.len(), named.names.len(), named.strings.len()));
    assert forall|i: int| 0 <= i < h.nodes.len() implies (#[trigger] h.nodes[i]).fits(
        i as nat,
        h.names.len(),
        h.strings.len(),
    ) by {
        if i < g.nodes.len() {
            assert(named.nodes[i].fits(i as nat, named.names.len(), named.strings.len()));
        }
    }
}

/// Interning a name keeps a graph valid.
pub proof fn lemma_named(g: Graph, text: Seq<char>)
    requires
        g.wf(),
        small(g.with_name(text)),
    ensures
        g.with_name(text).wf(),
        g.extended_by(g.with_name(text)),
        g.with_name(text).has_name(g.name_id(text)),
        g.with_name(text).name(g.name_id(text)) == text,
{
    let h = g.with_name(text);
    if !g.names.contains(text) {
        assert forall|i: int| 0 <= i < h.nodes.len() implies (#[trigger] h.nodes[i]).fits(
            i as nat,
            h.names.len(),
            h.strings.len(),
        ) by {
            assert(g.nodes[i].fits(i as nat, g.names.len(), g.strings.len()));
        }
    }
}

/// The first node that satisfies `p` does.
proof fn lemma_first(nodes: Seq<Node>, p: spec_fn(Node) -> bool, i: int)
    requires
        0 <= i,
    ensures
        first_node(nodes, p, i) matches Some(k) ==> i <= k < nodes.len() && p(nodes[k]),
    decreases nodes.len() - i,
{
    if i < nodes.len() && !p(nodes[i]) {
        lemma_first(nodes, p, i + 1);
    }
}

/// Finding or adding the empty type keeps a graph valid.
proof fn lemma_empty(g: Graph)
    requires
        g.wf(),
        small(empty_node(g).0),
    ensures
        empty_node(g).0.wf(),
        g.extended_by(empty_node(g).0),
        empty_node(g).0.has(empty_node(g).1),
        is_fn(empty_node(g).0, empty_node(g).1, FN_EMPTY_TYPE@),
{
    let p = |n: Node|
        n matches Node::ApplyFn { function, args } && g.name(function) == FN_EMPTY_TYPE@ && args.len()
            == 0;
    lemma_first(g.nodes, p, 0);
    match first_node(g.nodes, p, 0) {
        Some(i) => {},
        None => {
            lemma_apply(g, FN_EMPTY_TYPE@, Seq::empty());
        },
    }
}

/// Finding or adding a name keeps a graph valid.
pub(crate) proof fn lemma_name(g: Graph, text: Seq<char>)
    requires
        g.wf(),
        small(name_node(g, text).0),
    ensures
        name_node(g, text).0.wf(),
        g.extended_by(name_node(g, text).0),
        name_node(g, text).0.has(name_node(g, text).1),
        is_name(name_node(g, text).0, name_node(g, text).1, text),
{
    let p = |n: Node| n matches Node::Name(m) && g.name(m) == text;
    lemma_first(g.nodes, p, 0);
    match first_node(g.nodes, p, 0) {
        Some(i) => {},
        None => {
            let named = g.with_name(text);
            let h = name_node(g, text).0;
            lemma_named(g, text);
            assert forall|i: int| 0 <= i < h.nodes.len() implies (#[trigger] h.nodes[i]).fits(
                i as nat,
                h.names.len(),
                h.strings.len(),
            ) by {
                if i < g.nodes.len() {
                    assert(named.nodes[i].fits(i as nat, named.names.len(), named.strings.len()));
                }
            }
        },
    }
}

/// Adding a union keeps a graph valid.
proof fn lemma_union(g: Graph, alts: Seq<InstId>)
    requires
        g.wf(),
        alts.len() > 0,
        ids_below(alts, g.nodes.len()),
        small(union_node(g, alts).0),
    ensures
        union_node(g, alts).0.wf(),
        g.extended_by(union_node(g, alts).0),
        union_node(g, alts).0.has(union_node(g, alts).1),
{
    if alts.len() != 1 {
        lemma_apply(g, FN_UNION@, alts);
    }
}

/// Conformance is transitive among the types.
pub open spec fn transitive_on(g: Graph, ctx: Map<NameId, InstId>, types: Seq<InstId>) -> bool {
    forall|a: InstId, b: InstId, c: InstId|
        types.contains(a) && types.contains(b) && types.contains(c) && #[trigger] conforms(g, ctx, a, b)
            && #[trigger] conforms(g, ctx, b, c) ==> conforms(g, ctx, a, c)
}

/// Every type is single.
pub open spec fn all_single(g: Graph, types: Seq<InstId>) -> bool {
    forall|i: int| 0 <= i < types.len() ==> single(g, #[trigger] types[i])
}

/// The variants of tagged unions are known in every type.
pub open spec fn all_known(g: Graph, ctx: Map<NameId, InstId>, types: Seq<InstId>) -> bool {
    forall|i: int| 0 <= i < types.len() ==> known(g, ctx, #[trigger] types[i])
}

/// `a` conforms to one of `kept`.
spec fn covered(g: Graph, ctx: Map<NameId, InstId>, a: InstId, kept: Seq<InstId>) -> bool {
    exists|j: int| 0 <= j < kept.len() && conforms(g, ctx, a, #[trigger] kept[j])
}

/// No type among them conforms to another.
pub open spec fn irredundant(g: Graph, ctx: Map<NameId, InstId>, types: Seq<InstId>) -> bool {
    forall|a: InstId, b: InstId|
        types.contains(a) && types.contains(b) && a != b ==> !#[trigger] conforms(g, ctx, a, b)
}

/// Every one of `kept` is among `types`.
spec fn within(kept: Seq<InstId>, types: Seq<InstId>) -> bool {
    forall|j: int| 0 <= j < kept.len() ==> types.contains(#[trigger] kept[j])
}

/// What is in place of those that conform to a type: the others and, if it has a place, itself.
proof fn lemma_replaced(
    g: Graph,
    ctx: Map<NameId, InstId>,
    kept: Seq<InstId>,
    t: InstId,
    n: nat,
)
    requires
        n <= kept.len(),
    ensures
        ({
            let (some, placed) = replaced(g, ctx, kept, t, n);
            &&& placed <==> exists|i: int| 0 <= i < n && conforms(g, ctx, #[trigger] kept[i], t)
            &&& forall|j: int|
                0 <= j < some.len() ==> (placed && #[trigger] some[j] == t) || (kept.contains(some[j])
                    && !conforms(g, ctx, some[j], t))
            &&& placed ==> some.contains(t)
            &&& forall|i: int|
                0 <= i < n && !conforms(g, ctx, #[trigger] kept[i], t) ==> some.contains(kept[i])
        }),
    decreases n,
{
    if n > 0 {
        lemma_replaced(g, ctx, kept, t, (n - 1) as nat);
        let (before, was) = replaced(g, ctx, kept, t, (n - 1) as nat);
        let (some, placed) = replaced(g, ctx, kept, t, n);
        let last = kept[n - 1];
        assert forall|a: InstId| before.contains(a) implies some.contains(a) by {
            let j = before.index_of(a);
            assert(some[j] == a);
        }
        if !conforms(g, ctx, last, t) {
            assert(some[before.len() as int] == last);
            assert(kept.contains(last));
        } else {
            assert(placed);
            if !was {
                assert(some[before.len() as int] == t);
            }
        }
        assert forall|j: int| 0 <= j < some.len() implies (placed && #[trigger] some[j] == t) || (
        kept.contains(some[j]) && !conforms(g, ctx, some[j], t)) by {
            if j < before.len() {
                assert(some[j] == before[j]);
            }
        }
    }
}

/// What taking in a type leaves.
proof fn lemma_absorbed(g: Graph, ctx: Map<NameId, InstId>, kept: Seq<InstId>, t: InstId)
    ensures
        ({
            let next = absorb(g, ctx, kept, t);
            ||| next == kept && exists|i: int|
                0 <= i < kept.len() && conforms(g, ctx, t, #[trigger] kept[i])
            ||| {
                &&& forall|i: int| 0 <= i < kept.len() ==> !conforms(g, ctx, t, #[trigger] kept[i])
                &&& next.contains(t)
                &&& forall|j: int|
                    0 <= j < next.len() ==> #[trigger] next[j] == t || (kept.contains(next[j]) && !conforms(
                        g,
                        ctx,
                        next[j],
                        t,
                    ))
                &&& forall|i: int|
                    0 <= i < kept.len() && !conforms(g, ctx, #[trigger] kept[i], t) ==> next.contains(
                        kept[i],
                    )
            }
        }),
{
    if !(exists|i: int| 0 <= i < kept.len() && conforms(g, ctx, t, #[trigger] kept[i])) {
        lemma_replaced(g, ctx, kept, t, kept.len());
        let (some, placed) = replaced(g, ctx, kept, t, kept.len());
        let next = absorb(g, ctx, kept, t);
        assert forall|a: InstId| some.contains(a) implies next.contains(a) by {
            let j = some.index_of(a);
            assert(next[j] == a);
        }
        if !placed {
            assert(next[some.len() as int] == t);
            assert forall|j: int| 0 <= j < next.len() implies #[trigger] next[j] == t || (kept.contains(next[j])
                && !conforms(g, ctx, next[j], t)) by {
                if j < some.len() {
                    assert(next[j] == some[j]);
                }
            }
        }
    }
}

/// Taking in a type adds it or leaves it out for one that it conforms to.
proof fn lemma_absorb(
    g: Graph,
    ctx: Map<NameId, InstId>,
    kept: Seq<InstId>,
    t: InstId,
    types: Seq<InstId>,
)
    requires
        g.wf(),
        grounded(g, ctx),
        ids_below(types, g.nodes.len()),
        within(kept, types),
        types.contains(t),
    ensures
        within(absorb(g, ctx, kept, t), types),
        absorb(g, ctx, kept, t).len() > 0,
        covered(g, ctx, t, absorb(g, ctx, kept, t)),
        irredundant(g, ctx, kept) ==> irredundant(g, ctx, absorb(g, ctx, kept, t)),
        transitive_on(g, ctx, types) ==> forall|a: InstId|
            types.contains(a) && #[trigger] covered(g, ctx, a, kept) ==> covered(
                g,
                ctx,
                a,
                absorb(g, ctx, kept, t),
            ),
{
    let next = absorb(g, ctx, kept, t);
    assert(g.has(t));
    assert(conforms(g, ctx, t, t));
    lemma_absorbed(g, ctx, kept, t);
    if next != kept || !(exists|i: int| 0 <= i < kept.len() && conforms(g, ctx, t, #[trigger] kept[i])) {
        let m = next.index_of(t);
        assert(next[m] == t);
        assert forall|j: int| 0 <= j < next.len() implies types.contains(#[trigger] next[j]) by {
            if next[j] != t {
                let i = kept.index_of(next[j]);
                assert(types.contains(kept[i]));
            }
        }
        if irredundant(g, ctx, kept) {
            assert forall|a: InstId, b: InstId|
                next.contains(a) && next.contains(b) && a != b implies !#[trigger] conforms(g, ctx, a, b) by {
                let i = next.index_of(a);
                let j = next.index_of(b);
                assert(next[i] == a && next[j] == b);
                if a == t {
                    let k = kept.index_of(b);
                    assert(kept[k] == b);
                }
            }
        }
        if transitive_on(g, ctx, types) {
            assert forall|a: InstId| types.contains(a) && #[trigger] covered(g, ctx, a, kept) implies covered(
                g,
                ctx,
                a,
                next,
            ) by {
                let j = choose|j: int| 0 <= j < kept.len() && conforms(g, ctx, a, #[trigger] kept[j]);
                assert(types.contains(kept[j]));
                if conforms(g, ctx, kept[j], t) {
                    assert(conforms(g, ctx, a, next[m]));
                } else {
                    let k = next.index_of(kept[j]);
                    assert(conforms(g, ctx, a, next[k]));
                }
            }
        }
    }
}

/// What is kept of types are types among them, and covers them.
proof fn lemma_reduced(g: Graph, ctx: Map<NameId, InstId>, types: Seq<InstId>, n: nat)
    requires
        g.wf(),
        grounded(g, ctx),
        ids_below(types, g.nodes.len()),
        n <= types.len(),
    ensures
        within(reduced(g, ctx, types, n), types),
        n > 0 ==> reduced(g, ctx, types, n).len() > 0,
        irredundant(g, ctx, reduced(g, ctx, types, n)),
        transitive_on(g, ctx, types) ==> forall|i: int|
            0 <= i < n ==> covered(g, ctx, #[trigger] types[i], reduced(g, ctx, types, n)),
    decreases n,
{
    if n > 0 {
        let before = reduced(g, ctx, types, (n - 1) as nat);
        lemma_reduced(g, ctx, types, (n - 1) as nat);
        assert(types.contains(types[n - 1]));
        lemma_absorb(g, ctx, before, types[n - 1], types);
        assert forall|i: int| transitive_on(g, ctx, types) && 0 <= i < n implies covered(
            g,
            ctx,
            #[trigger] types[i],
            reduced(g, ctx, types, n),
        ) by {
            assert(types.contains(types[i]));
            if i < n - 1 {
                assert(covered(g, ctx, types[i], before));
            }
        }
    }
}

/// The alternatives of types are those of each of them.
proof fn lemma_flatten(g: Graph, types: Seq<InstId>, n: nat)
    requires
        g.wf(),
        ids_below(types, g.nodes.len()),
        n <= types.len(),
    ensures
        ids_below(flatten(g, types, n), g.nodes.len()),
        forall|i: int, k: int|
            0 <= i < n && 0 <= k < alternatives(g, types[i]).len() ==> flatten(g, types, n).contains(
                #[trigger] alternatives(g, types[i])[k],
            ),
        forall|m: int|
            0 <= m < flatten(g, types, n).len() ==> is_alternative(
                g,
                types,
                #[trigger] flatten(g, types, n)[m],
            ),
    decreases n,
{
    if n > 0 {
        let before = flatten(g, types, (n - 1) as nat);
        let alts = alternatives(g, types[n - 1]);
        let all = flatten(g, types, n);
        lemma_flatten(g, types, (n - 1) as nat);
        lemma_parts_below(g, types[n - 1]);
        assert(all == before + alts);
        assert forall|m: int| 0 <= m < all.len() implies is_alternative(g, types, #[trigger] all[m])
            && all[m].0 < g.nodes.len() by {
            if m < before.len() {
                assert(all[m] == before[m]);
            } else {
                let k = m - before.len();
                assert(all[m] == alts[k]);
                assert(alternatives(g, types[n - 1])[k] == all[m]);
            }
        }
        assert forall|i: int, k: int|
            0 <= i < n && 0 <= k < alternatives(g, types[i]).len() implies all.contains(
            #[trigger] alternatives(g, types[i])[k],
        ) by {
            let a = alternatives(g, types[i])[k];
            if i < n - 1 {
                assert(before.contains(a));
                let m = choose|m: int| 0 <= m < before.len() && before[m] == a;
                assert(all[m] == a);
            } else {
                assert(all[before.len() + k] == a);
            }
        }
    }
}

/// `a` is an alternative of one of the types.
spec fn is_alternative(g: Graph, types: Seq<InstId>, a: InstId) -> bool {
    exists|i: int, k: int|
        0 <= i < types.len() && 0 <= k < alternatives(g, types[i]).len() && #[trigger] alternatives(
            g,
            types[i],
        )[k] == a
}

/// The graph with an upper bound is valid and holds what was there.
pub(crate) proof fn lemma_upper(g: Graph, ctx: Map<NameId, InstId>, types: Seq<InstId>)
    requires
        g.wf(),
        grounded(g, ctx),
        ids_below(types, g.nodes.len()),
        small(upper(g, ctx, types).0),
    ensures
        upper(g, ctx, types).0.wf(),
        g.extended_by(upper(g, ctx, types).0),
        grounded(upper(g, ctx, types).0, ctx),
        upper(g, ctx, types).0.has(upper(g, ctx, types).1),
{
    let flat = flatten(g, types, types.len());
    lemma_flatten(g, types, types.len());
    if exists|i: int| 0 <= i < types.len() && is_name(g, #[trigger] types[i], "/any"@) {
        lemma_name(g, "/any"@);
    } else if flat.len() == 0 {
        lemma_empty(g);
    } else {
        lemma_reduced(g, ctx, flat, flat.len());
        lemma_kept_below(g, reduced(g, ctx, flat, flat.len()), flat);
        lemma_union(g, reduced(g, ctx, flat, flat.len()));
    }
    lemma_grounded_grows(g, upper(g, ctx, types).0, ctx);
}

proof fn lemma_kept_below(g: Graph, kept: Seq<InstId>, types: Seq<InstId>)
    requires
        within(kept, types),
        ids_below(types, g.nodes.len()),
    ensures
        ids_below(kept, g.nodes.len()),
{
    assert forall|j: int| 0 <= j < kept.len() implies (#[trigger] kept[j]).0 < g.nodes.len() by {
        assert(types.contains(kept[j]));
    }
}

/// The alternatives of each type conform to the upper bound of the types, and so
/// does the type itself. This holds where conformance is transitive among the
/// alternatives.
pub proof fn an_upper_bound_is_above(g: Graph, ctx: Map<NameId, InstId>, types: Seq<InstId>, i: int)
    requires
        g.wf(),
        grounded(g, ctx),
        ids_below(types, g.nodes.len()),
        small(upper(g, ctx, types).0),
        all_known(g, ctx, flatten(g, types, types.len())),
        transitive_on(g, ctx, flatten(g, types, types.len())),
        0 <= i < types.len(),
    ensures
        forall|k: int|
            0 <= k < alternatives(g, types[i]).len() ==> conforms(
                upper(g, ctx, types).0,
                ctx,
                #[trigger] alternatives(g, types[i])[k],
                upper(g, ctx, types).1,
            ),
        conforms(upper(g, ctx, types).0, ctx, types[i], upper(g, ctx, types).1),
{
    let (h, u) = upper(g, ctx, types);
    let flat = flatten(g, types, types.len());
    let alts = alternatives(g, types[i]);
    lemma_kinds();
    lemma_upper(g, ctx, types);
    lemma_flatten(g, types, types.len());
    assert forall|k: int| 0 <= k < alts.len() implies conforms(h, ctx, #[trigger] alts[k], u) by {
        assert(flat.contains(alternatives(g, types[i])[k]));
        lemma_covers(g, ctx, types, alts[k]);
    }
    lemma_same(g, h, ctx, types[i]);
    if is_fn(g, types[i], FN_UNION@) {
        if types[i] != u {
            a_union_conforms_by_its_alternatives(h, ctx, types[i], u);
        }
    } else {
        assert(alts[0] == types[i]);
    }
}

/// An alternative conforms to the upper bound.
proof fn lemma_covers(g: Graph, ctx: Map<NameId, InstId>, types: Seq<InstId>, a: InstId)
    requires
        g.wf(),
        grounded(g, ctx),
        ids_below(types, g.nodes.len()),
        small(upper(g, ctx, types).0),
        all_known(g, ctx, flatten(g, types, types.len())),
        transitive_on(g, ctx, flatten(g, types, types.len())),
        flatten(g, types, types.len()).contains(a),
    ensures
        conforms(upper(g, ctx, types).0, ctx, a, upper(g, ctx, types).1),
{
    let (h, u) = upper(g, ctx, types);
    let flat = flatten(g, types, types.len());
    lemma_upper(g, ctx, types);
    lemma_flatten(g, types, types.len());
    let m = choose|m: int| 0 <= m < flat.len() && flat[m] == a;
    assert(g.has(flat[m]));
    if exists|i: int| 0 <= i < types.len() && is_name(g, #[trigger] types[i], "/any"@) {
        lemma_name(g, "/any"@);
    } else {
        let kept = reduced(g, ctx, flat, flat.len());
        lemma_reduced(g, ctx, flat, flat.len());
        lemma_kept_below(g, kept, flat);
        assert(covered(g, ctx, flat[m], kept));
        let j = choose|j: int| 0 <= j < kept.len() && conforms(g, ctx, a, #[trigger] kept[j]);
        if kept.len() != 1 {
            lemma_apply(g, FN_UNION@, kept);
            conformance_is_stable(g, h, ctx, a, kept[j]);
            assert(known(g, ctx, flat[m]));
            lemma_known_grows(g, h, ctx, a);
            an_alternative_is_enough(h, ctx, a, u, j);
        }
    }
}

/// The upper bound of types conforms to whatever they all conform to, unless there is
/// nothing to bound.
pub proof fn an_upper_bound_is_least(g: Graph, ctx: Map<NameId, InstId>, types: Seq<InstId>, c: InstId)
    requires
        g.wf(),
        grounded(g, ctx),
        ids_below(types, g.nodes.len()),
        small(upper(g, ctx, types).0),
        all_known(g, ctx, flatten(g, types, types.len())),
        flatten(g, types, types.len()).len() > 0,
        g.has(c),
        forall|i: int| 0 <= i < types.len() ==> conforms(g, ctx, #[trigger] types[i], c),
    ensures
        conforms(upper(g, ctx, types).0, ctx, upper(g, ctx, types).1, c),
{
    let (h, u) = upper(g, ctx, types);
    let flat = flatten(g, types, types.len());
    lemma_kinds();
    lemma_upper(g, ctx, types);
    lemma_flatten(g, types, types.len());
    if exists|i: int| 0 <= i < types.len() && is_name(g, #[trigger] types[i], "/any"@) {
        let i = choose|i: int| 0 <= i < types.len() && is_name(g, #[trigger] types[i], "/any"@);
        lemma_name(g, "/any"@);
        conformance_is_stable(g, h, ctx, types[i], c);
        lemma_same(g, h, ctx, types[i]);
        lemma_any_alike(h, ctx, types[i], u, c);
    } else {
        let kept = reduced(g, ctx, flat, flat.len());
        lemma_reduced(g, ctx, flat, flat.len());
        lemma_kept_below(g, kept, flat);
        assert forall|j: int| 0 <= j < kept.len() implies conforms(h, ctx, #[trigger] kept[j], c) by {
            assert(flat.contains(kept[j]));
            let m = choose|m: int| 0 <= m < flat.len() && flat[m] == kept[j];
            assert(is_alternative(g, types, flat[m]));
            let (i, k) = choose|i: int, k: int|
                0 <= i < types.len() && 0 <= k < alternatives(g, types[i]).len()
                    && #[trigger] alternatives(g, types[i])[k] == flat[m];
            assert(conforms(g, ctx, types[i], c));
            if is_fn(g, types[i], FN_UNION@) {
                assert(parts(g, types[i])[k] == kept[j]);
                assert(known(g, ctx, flat[m]));
                lemma_alternative_below(g, ctx, types[i], c, k);
            }
            conformance_is_stable(g, h, ctx, kept[j], c);
        }
        if kept.len() == 1 {
            assert(kept[0] == u);
        } else {
            lemma_apply(g, FN_UNION@, kept);
            lemma_same(g, h, ctx, c);
            a_union_conforms_by_its_alternatives(h, ctx, u, c);
        }
    }
}

/// No alternative of an upper bound is spare: none conforms to another.
pub proof fn an_upper_bound_has_no_spare_alternative(
    g: Graph,
    ctx: Map<NameId, InstId>,
    types: Seq<InstId>,
    i: int,
    j: int,
)
    requires
        g.wf(),
        grounded(g, ctx),
        ids_below(types, g.nodes.len()),
        small(upper(g, ctx, types).0),
        is_fn(upper(g, ctx, types).0, upper(g, ctx, types).1, FN_UNION@),
        all_single(g, flatten(g, types, types.len())),
        0 <= i < parts(upper(g, ctx, types).0, upper(g, ctx, types).1).len(),
        0 <= j < parts(upper(g, ctx, types).0, upper(g, ctx, types).1).len(),
        parts(upper(g, ctx, types).0, upper(g, ctx, types).1)[i] != parts(
            upper(g, ctx, types).0,
            upper(g, ctx, types).1,
        )[j],
    ensures
        !conforms(
            upper(g, ctx, types).0,
            ctx,
            parts(upper(g, ctx, types).0, upper(g, ctx, types).1)[i],
            parts(upper(g, ctx, types).0, upper(g, ctx, types).1)[j],
        ),
{
    let (h, u) = upper(g, ctx, types);
    let flat = flatten(g, types, types.len());
    let alts = parts(h, u);
    lemma_kinds();
    lemma_upper(g, ctx, types);
    lemma_flatten(g, types, types.len());
    if exists|i: int| 0 <= i < types.len() && is_name(g, #[trigger] types[i], "/any"@) {
        lemma_name(g, "/any"@);
    } else if flat.len() == 0 {
        lemma_empty(g);
    } else {
        let kept = reduced(g, ctx, flat, flat.len());
        lemma_reduced(g, ctx, flat, flat.len());
        lemma_kept_below(g, kept, flat);
        if kept.len() == 1 {
            assert(flat.contains(kept[0]));
            let m = flat.index_of(kept[0]);
            assert(single(g, flat[m]));
            lemma_same(g, h, ctx, u);
        } else {
            lemma_apply(g, FN_UNION@, kept);
            assert(kept.contains(alts[i]) && kept.contains(alts[j]));
            conformance_is_stable(g, h, ctx, alts[i], alts[j]);
        }
    }
}

/// An alternative conforms to what its union conforms to.
proof fn lemma_alternative_below(
    g: Graph,
    ctx: Map<NameId, InstId>,
    left: InstId,
    right: InstId,
    k: int,
)
    requires
        g.wf(),
        grounded(g, ctx),
        g.has(left),
        g.has(right),
        is_fn(g, left, FN_UNION@),
        conforms(g, ctx, left, right),
        0 <= k < parts(g, left).len(),
        known(g, ctx, parts(g, left)[k]),
    ensures
        conforms(g, ctx, parts(g, left)[k], right),
{
    lemma_parts_low(g, ctx, left);
    let part = parts(g, left)[k];
    if left == right {
        assert(conforms(g, ctx, part, part));
        an_alternative_is_enough(g, ctx, part, right, k);
    } else {
        a_union_conforms_by_its_alternatives(g, ctx, left, right);
    }
}

/// All instructions for `/any` conform to the same types.
proof fn lemma_any_alike(g: Graph, ctx: Map<NameId, InstId>, a: InstId, b: InstId, c: InstId)
    requires
        g.wf(),
        grounded(g, ctx),
        g.has(a),
        g.has(b),
        g.has(c),
        is_name(g, a, "/any"@),
        is_name(g, b, "/any"@),
        conforms(g, ctx, a, c),
    ensures
        conforms(g, ctx, b, c),
    decreases height(g, ctx, c),
{
    lemma_parts_low(g, ctx, c);
    lemma_kinds();
    if !is_name(g, c, "/any"@) && !is_name(g, a, "/bot"@) {
        assert(!is_fn(g, a, FN_STRUCT@) && !is_fn(g, a, FN_UNION@) && !is_fn(g, a, FN_TAGGED_UNION@));
        if is_fn(g, c, FN_TAGGED_UNION@) {
            if let Some((tags, structs)) = variants(g, c) {
                assert forall|k: int| 0 <= k < structs.len() implies !struct_in_variant(
                    g,
                    ctx,
                    a,
                    tag_field(g, c).unwrap(),
                    #[trigger] structs[k],
                ) by {}
            }
        } else if is_fn(g, c, FN_UNION@) {
            let k = choose|k: int|
                0 <= k < parts(g, c).len() && conforms(g, ctx, a, #[trigger] parts(g, c)[k]);
            lemma_any_alike(g, ctx, a, b, parts(g, c)[k]);
        } else {
            assert(shape_conforms(g, ctx, a, c));
            if g.node(c) is Var && ctx.contains_key(g.node(c)->Var_0) {
                lemma_any_alike(g, ctx, a, b, ctx[g.node(c)->Var_0]);
            }
            assert(shape_conforms(g, ctx, b, c));
        }
    }
}

/// The later graph is no smaller.
spec fn no_smaller(g: Graph, later: Graph) -> bool {
    g.nodes.len() <= later.nodes.len() && g.names.len() <= later.names.len()
}

/// An intersection takes nothing out of the graph.
proof fn lemma_intersection_grows(
    base: Graph,
    g: Graph,
    ctx: Map<NameId, InstId>,
    a: InstId,
    b: InstId,
)
    requires
        grounded(base, ctx),
        base.wf(),
        base.has(a),
        base.has(b),
    ensures
        no_smaller(g, intersection(base, g, ctx, a, b).0),
    decreases height(base, ctx, a) + height(base, ctx, b), 1nat, 0nat,
{
    lemma_parts_low(base, ctx, a);
    lemma_parts_low(base, ctx, b);
    if base.node(a) is Var && ctx.contains_key(base.node(a)->Var_0) {
        lemma_intersection_grows(base, g, ctx, ctx[base.node(a)->Var_0], b);
    }
    if base.node(b) is Var && ctx.contains_key(base.node(b)->Var_0) {
        lemma_intersection_grows(base, g, ctx, a, ctx[base.node(b)->Var_0]);
    }
    lemma_intersections_grow(base, g, ctx, a, b, parts(base, a).len());
}

/// Intersections take nothing out of the graph.
proof fn lemma_intersections_grow(
    base: Graph,
    g: Graph,
    ctx: Map<NameId, InstId>,
    a: InstId,
    b: InstId,
    n: nat,
)
    requires
        grounded(base, ctx),
        base.wf(),
        base.has(a),
        base.has(b),
        n <= parts(base, a).len(),
    ensures
        no_smaller(g, intersections(base, g, ctx, a, b, n).0),
    decreases height(base, ctx, a) + height(base, ctx, b), 0nat, n,
{
    lemma_parts_low(base, ctx, a);
    if n > 0 {
        lemma_intersections_grow(base, g, ctx, a, b, (n - 1) as nat);
        let h = intersections(base, g, ctx, a, b, (n - 1) as nat).0;
        lemma_intersection_grows(base, h, ctx, parts(base, a)[n - 1], b);
    }
}

/// The type is a name or an application, and no union; if it is a tagged union, its variants
/// are known.
pub open spec fn plain(g: Graph, id: InstId) -> bool {
    &&& g.node(id) is Name || g.node(id) is ApplyFn
    &&& single(g, id)
}

/// The type is plain, or a union of plain types.
pub open spec fn flat_type(g: Graph, id: InstId) -> bool {
    forall|k: int|
        0 <= k < alternatives(g, id).len() ==> plain(g, #[trigger] alternatives(g, id)[k])
}

/// The type is a name, a variable without a bound or an application, and so are the
/// alternatives of a union; the variants of tagged unions are known.
pub open spec fn regular(g: Graph, ctx: Map<NameId, InstId>, id: InstId) -> bool
    decreases height(g, ctx, id),
    when grounded(g, ctx) && g.wf() && g.has(id)
{
    proof {
        lemma_parts_low(g, ctx, id);
    }
    &&& g.node(id) is Name || g.node(id) is ApplyFn || (g.node(id) is Var && !ctx.contains_key(
        g.node(id)->Var_0,
    ))
    &&& is_fn(g, id, FN_TAGGED_UNION@) ==> variants(g, id) is Some
    &&& is_fn(g, id, FN_UNION@) ==> forall|k: int|
        0 <= k < parts(g, id).len() ==> regular(g, ctx, #[trigger] parts(g, id)[k])
}

/// The variants in a regular type are known, in a later graph too.
proof fn lemma_regular(g: Graph, later: Graph, ctx: Map<NameId, InstId>, id: InstId)
    requires
        grows(g, later, ctx),
        g.has(id),
        regular(g, ctx, id),
    ensures
        grounded(later, ctx),
        known(later, ctx, id),
    decreases height(g, ctx, id),
{
    lemma_grounded_grows(g, later, ctx);
    lemma_parts_low(g, ctx, id);
    lemma_same(g, later, ctx, id);
    if is_fn(g, id, FN_UNION@) {
        assert forall|k: int| 0 <= k < parts(later, id).len() implies known(
            later,
            ctx,
            #[trigger] parts(later, id)[k],
        ) by {
            assert(regular(g, ctx, parts(g, id)[k]));
            lemma_regular(g, later, ctx, parts(g, id)[k]);
        }
    }
}

/// Known variants stay known when the graph grows.
proof fn lemma_known_grows(g: Graph, later: Graph, ctx: Map<NameId, InstId>, id: InstId)
    requires
        grows(g, later, ctx),
        g.has(id),
        known(g, ctx, id),
    ensures
        grounded(later, ctx),
        known(later, ctx, id),
    decreases height(g, ctx, id),
{
    lemma_grounded_grows(g, later, ctx);
    lemma_parts_low(g, ctx, id);
    lemma_same(g, later, ctx, id);
    if is_fn(g, id, FN_UNION@) {
        assert forall|k: int| 0 <= k < parts(later, id).len() implies known(
            later,
            ctx,
            #[trigger] parts(later, id)[k],
        ) by {
            assert(known(g, ctx, parts(g, id)[k]));
            lemma_known_grows(g, later, ctx, parts(g, id)[k]);
        }
    }
}

/// `r` conforms to `a` and to `b`, and the variants in it are known.
spec fn inside(g: Graph, ctx: Map<NameId, InstId>, r: InstId, a: InstId, b: InstId) -> bool {
    known(g, ctx, r) && conforms(g, ctx, r, a) && conforms(g, ctx, r, b)
}

/// The alternatives of a type are in the graph.
proof fn lemma_alternatives_below(g: Graph, id: InstId)
    requires
        g.wf(),
        g.has(id),
    ensures
        ids_below(alternatives(g, id), g.nodes.len()),
{
    lemma_parts_below(g, id);
}

/// Lying inside stays when the graph grows.
proof fn lemma_inside_grows(
    g: Graph,
    later: Graph,
    ctx: Map<NameId, InstId>,
    r: InstId,
    a: InstId,
    b: InstId,
)
    requires
        grows(g, later, ctx),
        g.has(r),
        g.has(a),
        g.has(b),
        inside(g, ctx, r, a, b),
    ensures
        inside(later, ctx, r, a, b),
{
    lemma_known_grows(g, later, ctx, r);
    conformance_is_stable(g, later, ctx, r, a);
    conformance_is_stable(g, later, ctx, r, b);
}

/// An alternative of a type inside lies inside.
proof fn lemma_inside(g: Graph, ctx: Map<NameId, InstId>, r: InstId, a: InstId, b: InstId, k: int)
    requires
        g.wf(),
        grounded(g, ctx),
        g.has(r),
        g.has(a),
        g.has(b),
        inside(g, ctx, r, a, b),
        0 <= k < alternatives(g, r).len(),
    ensures
        inside(g, ctx, alternatives(g, r)[k], a, b),
{
    lemma_parts_low(g, ctx, r);
    if is_fn(g, r, FN_UNION@) {
        assert(parts(g, r)[k] == alternatives(g, r)[k]);
        assert(known(g, ctx, parts(g, r)[k]));
        lemma_alternative_below(g, ctx, r, a, k);
        lemma_alternative_below(g, ctx, r, b, k);
    }
}

/// The upper bound of types inside lies inside, or is empty.
proof fn lemma_upper_inside(
    g: Graph,
    ctx: Map<NameId, InstId>,
    types: Seq<InstId>,
    a: InstId,
    b: InstId,
)
    requires
        g.wf(),
        grounded(g, ctx),
        ids_below(types, g.nodes.len()),
        g.has(a),
        g.has(b),
        small(upper(g, ctx, types).0),
        forall|i: int| 0 <= i < types.len() ==> inside(g, ctx, #[trigger] types[i], a, b),
    ensures
        is_fn(upper(g, ctx, types).0, upper(g, ctx, types).1, FN_EMPTY_TYPE@) || inside(
            upper(g, ctx, types).0,
            ctx,
            upper(g, ctx, types).1,
            a,
            b,
        ),
{
    let (h, u) = upper(g, ctx, types);
    let flat = flatten(g, types, types.len());
    lemma_kinds();
    lemma_upper(g, ctx, types);
    lemma_flatten(g, types, types.len());
    lemma_grounded_grows(g, h, ctx);
    if exists|i: int| 0 <= i < types.len() && is_name(g, #[trigger] types[i], "/any"@) {
        let i = choose|i: int| 0 <= i < types.len() && is_name(g, #[trigger] types[i], "/any"@);
        lemma_name(g, "/any"@);
        lemma_inside_grows(g, h, ctx, types[i], a, b);
        lemma_same(g, h, ctx, types[i]);
        lemma_any_alike(h, ctx, types[i], u, a);
        lemma_any_alike(h, ctx, types[i], u, b);
    } else if flat.len() == 0 {
        lemma_empty(g);
    } else {
        let kept = reduced(g, ctx, flat, flat.len());
        lemma_reduced(g, ctx, flat, flat.len());
        lemma_kept_below(g, kept, flat);
        assert forall|j: int| 0 <= j < kept.len() implies inside(h, ctx, #[trigger] kept[j], a, b) by {
            assert(flat.contains(kept[j]));
            let m = choose|m: int| 0 <= m < flat.len() && flat[m] == kept[j];
            assert(is_alternative(g, types, flat[m]));
            let (i, k) = choose|i: int, k: int|
                0 <= i < types.len() && 0 <= k < alternatives(g, types[i]).len()
                    && #[trigger] alternatives(g, types[i])[k] == flat[m];
            assert(inside(g, ctx, types[i], a, b));
            lemma_inside(g, ctx, types[i], a, b, k);
            lemma_inside_grows(g, h, ctx, kept[j], a, b);
        }
        if kept.len() == 1 {
            assert(kept[0] == u);
        } else {
            lemma_apply(g, FN_UNION@, kept);
            lemma_same(g, h, ctx, a);
            lemma_same(g, h, ctx, b);
            assert(parts(h, u) == kept);
            assert forall|k: int| 0 <= k < parts(h, u).len() implies known(h, ctx, #[trigger] parts(h, u)[k])
                && conforms(h, ctx, parts(h, u)[k], a) && conforms(h, ctx, parts(h, u)[k], b) by {
                assert(inside(h, ctx, kept[k], a, b));
            }
            a_union_conforms_by_its_alternatives(h, ctx, u, a);
            a_union_conforms_by_its_alternatives(h, ctx, u, b);
        }
    }
}

/// Where two types meet: a valid later graph, and in it the empty type or a type
/// that lies inside both.
spec fn meets(
    g: Graph,
    ctx: Map<NameId, InstId>,
    a: InstId,
    b: InstId,
    met: (Graph, InstId),
) -> bool {
    &&& met.0.wf()
    &&& g.extended_by(met.0)
    &&& met.0.has(met.1)
    &&& is_fn(met.0, met.1, FN_EMPTY_TYPE@) || inside(met.0, ctx, met.1, a, b)
}

/// Two types of `base` meet in their intersection.
#[verifier::rlimit(30)]
proof fn lemma_meets(base: Graph, g: Graph, ctx: Map<NameId, InstId>, a: InstId, b: InstId)
    requires
        grows(base, g, ctx),
        base.has(a),
        base.has(b),
        regular(base, ctx, a),
        regular(base, ctx, b),
        small(intersection(base, g, ctx, a, b).0),
    ensures
        meets(g, ctx, a, b, intersection(base, g, ctx, a, b)),
    decreases height(base, ctx, a) + height(base, ctx, b), 1nat, 0nat,
{
    lemma_parts_low(base, ctx, a);
    lemma_parts_low(base, ctx, b);
    lemma_grounded_grows(base, g, ctx);
    lemma_same(base, g, ctx, a);
    lemma_same(base, g, ctx, b);
    lemma_regular(base, g, ctx, a);
    lemma_regular(base, g, ctx, b);
    if same_constant(base, a, b) {
        if a != b {
            assert(shape_conforms(g, ctx, a, b));
        }
    } else if is_name(base, a, "/any"@) || is_name(base, b, "/any"@) {
    } else if base.node(a) is Var || base.node(b) is Var {
        lemma_empty(g);
    } else if conforms(g, ctx, a, b) || conforms(g, ctx, b, a) {
    } else if is_fn(base, a, FN_UNION@) {
        let n = parts(base, a).len();
        let (h, res) = intersections(base, g, ctx, a, b, n);
        assert(no_smaller(h, upper(h, ctx, res).0));
        lemma_meet_parts(base, g, ctx, a, b, n);
        lemma_grounded_grows(g, h, ctx);
        lemma_upper(h, ctx, res);
        lemma_upper_inside(h, ctx, res, a, b);
    } else if is_fn(base, b, FN_UNION@) {
        let n = parts(base, b).len();
        let res = narrowed(base, g, ctx, a, b, n);
        lemma_narrowed(base, g, ctx, a, b, n);
        lemma_upper(g, ctx, res);
        lemma_upper_inside(g, ctx, res, a, b);
    } else {
        lemma_empty(g);
    }
}

/// The alternatives of `a` meet `b` inside both.
proof fn lemma_meet_parts(
    base: Graph,
    g: Graph,
    ctx: Map<NameId, InstId>,
    a: InstId,
    b: InstId,
    n: nat,
)
    requires
        grows(base, g, ctx),
        base.has(a),
        base.has(b),
        is_fn(base, a, FN_UNION@),
        regular(base, ctx, a),
        regular(base, ctx, b),
        n <= parts(base, a).len(),
        small(intersections(base, g, ctx, a, b, n).0),
    ensures
        intersections(base, g, ctx, a, b, n).0.wf(),
        g.extended_by(intersections(base, g, ctx, a, b, n).0),
        ids_below(
            intersections(base, g, ctx, a, b, n).1,
            intersections(base, g, ctx, a, b, n).0.nodes.len(),
        ),
        forall|i: int|
            0 <= i < intersections(base, g, ctx, a, b, n).1.len() ==> inside(
                intersections(base, g, ctx, a, b, n).0,
                ctx,
                #[trigger] intersections(base, g, ctx, a, b, n).1[i],
                a,
                b,
            ),
    decreases height(base, ctx, a) + height(base, ctx, b), 0nat, n,
{
    lemma_parts_low(base, ctx, a);
    if n > 0 {
        let (h, res) = intersections(base, g, ctx, a, b, (n - 1) as nat);
        let p = parts(base, a)[n - 1];
        let (later, u) = intersection(base, h, ctx, p, b);
        assert(regular(base, ctx, p));
        lemma_intersection_grows(base, h, ctx, p, b);
        lemma_meet_parts(base, g, ctx, a, b, (n - 1) as nat);
        assert(base.extended_by(h));
        lemma_meets(base, h, ctx, p, b);
        lemma_grounded_grows(base, h, ctx);
        assert(base.extended_by(later));
        lemma_grounded_grows(base, later, ctx);
        assert forall|i: int| 0 <= i < res.len() implies inside(later, ctx, #[trigger] res[i], a, b)
            && later.has(res[i]) by {
            assert(h.has(res[i]));
            lemma_inside_grows(h, later, ctx, res[i], a, b);
        }
        if !is_fn(later, u, FN_EMPTY_TYPE@) {
            lemma_same(base, later, ctx, a);
            an_alternative_is_enough(later, ctx, u, a, n - 1);
            assert(inside(later, ctx, u, a, b));
            let all = res.push(u);
            assert forall|i: int| 0 <= i < all.len() implies inside(later, ctx, #[trigger] all[i], a, b)
                && later.has(all[i]) by {
                if i < res.len() {
                    assert(all[i] == res[i]);
                }
            }
        }
    }
}

/// What `a` and the alternatives of `b` have in common lies inside both.
proof fn lemma_narrowed(
    base: Graph,
    g: Graph,
    ctx: Map<NameId, InstId>,
    a: InstId,
    b: InstId,
    n: nat,
)
    requires
        grows(base, g, ctx),
        base.has(a),
        base.has(b),
        regular(base, ctx, a),
        regular(base, ctx, b),
        is_fn(base, b, FN_UNION@),
        n <= parts(base, b).len(),
    ensures
        ids_below(narrowed(base, g, ctx, a, b, n), g.nodes.len()),
        forall|i: int|
            0 <= i < narrowed(base, g, ctx, a, b, n).len() ==> inside(
                g,
                ctx,
                #[trigger] narrowed(base, g, ctx, a, b, n)[i],
                a,
                b,
            ),
    decreases n,
{
    if n > 0 {
        lemma_narrowed(base, g, ctx, a, b, (n - 1) as nat);
        lemma_grounded_grows(base, g, ctx);
        lemma_parts_low(base, ctx, b);
        let res = narrowed(base, g, ctx, a, b, (n - 1) as nat);
        let e = parts(base, b)[n - 1];
        assert(regular(base, ctx, e));
        lemma_same(base, g, ctx, a);
        lemma_same(base, g, ctx, b);
        lemma_same(base, g, ctx, e);
        lemma_regular(base, g, ctx, a);
        lemma_regular(base, g, ctx, e);
        let found = if conforms(g, ctx, a, e) {
            a
        } else {
            e
        };
        if conforms(g, ctx, a, e) || conforms(g, ctx, e, a) {
            if conforms(g, ctx, a, e) {
                an_alternative_is_enough(g, ctx, a, b, n - 1);
            } else {
                assert(conforms(g, ctx, e, e));
                an_alternative_is_enough(g, ctx, e, b, n - 1);
            }
            assert(inside(g, ctx, found, a, b));
            assert forall|i: int| 0 <= i < res.push(found).len() implies inside(
                g,
                ctx,
                #[trigger] res.push(found)[i],
                a,
                b,
            ) && g.has(res.push(found)[i]) by {
                if i < res.len() {
                    assert(res.push(found)[i] == res[i]);
                }
            }
        }
    }
}

/// The intersection of two types is empty or conforms to both of them. Where one conforms to the
/// other, and neither is a variable, it is below the first and the first below it. With `/any` it
/// is the other type.
pub proof fn an_intersection_is_below(g: Graph, ctx: Map<NameId, InstId>, a: InstId, b: InstId)
    requires
        g.wf(),
        grounded(g, ctx),
        g.has(a),
        g.has(b),
        regular(g, ctx, a),
        regular(g, ctx, b),
        small(intersection(g, g, ctx, a, b).0),
    ensures
        ({
            let (h, r) = intersection(g, g, ctx, a, b);
            &&& is_fn(h, r, FN_EMPTY_TYPE@) || (conforms(h, ctx, r, a) && conforms(h, ctx, r, b))
            &&& conforms(g, ctx, a, b) && !(g.node(a) is Var) && !(g.node(b) is Var) ==> conforms(
                h,
                ctx,
                r,
                a,
            ) && conforms(h, ctx, a, r)
            &&& is_name(g, b, "/any"@) && !is_name(g, a, "/any"@) ==> (h, r) == (g, a)
            &&& is_name(g, a, "/any"@) && !is_name(g, b, "/any"@) ==> (h, r) == (g, b)
        }),
{
    lemma_meets(g, g, ctx, a, b);
}

/// Once a type is removed from another, the alternatives that conform to it are
/// gone and the others are left; the empty type is left where there are none.
pub proof fn removal_leaves_the_others(g: Graph, t: InstId, id: InstId)
    requires
        g.wf(),
        g.has(t),
        g.has(id),
        small(without(g, t, id).0),
        flat_type(g, id),
    ensures
        ({
            let (h, r) = without(g, t, id);
            if forall|k: int|
                0 <= k < alternatives(g, id).len() ==> conforms(
                    g,
                    Map::empty(),
                    #[trigger] alternatives(g, id)[k],
                    t,
                ) {
                is_fn(h, r, FN_EMPTY_TYPE@)
            } else {
                forall|a: InstId| #[trigger]
                    alternatives(h, r).contains(a) <==> alternatives(g, id).contains(a) && !conforms(
                        g,
                        Map::empty(),
                        a,
                        t,
                    )
            }
        }),
{
    let (h, r) = without(g, t, id);
    let all = alternatives(g, id);
    lemma_kinds();
    lemma_grounded_empty(g);
    lemma_alternatives_below(g, id);
    if is_fn(g, id, FN_UNION@) {
        let rest = not_under(g, all, t, all.len());
        assert forall|a: InstId| #[trigger]
            rest.contains(a) <==> all.contains(a) && !conforms(g, Map::empty(), a, t) by {
            lemma_not_under(g, all, t, all.len(), a);
        }
        if rest.len() == 0 {
            assert forall|k: int| 0 <= k < all.len() implies conforms(
                g,
                Map::empty(),
                #[trigger] all[k],
                t,
            ) by {
                assert(all.contains(all[k]));
                assert(!rest.contains(all[k]));
            }
            lemma_empty(g);
        } else {
            assert forall|i: int| 0 <= i < rest.len() implies (#[trigger] rest[i]).0 < g.nodes.len()
                && plain(g, rest[i]) && !conforms(g, Map::empty(), rest[i], t) by {
                assert(rest.contains(rest[i]));
                let k = choose|k: int| 0 <= k < all.len() && all[k] == rest[i];
                assert(plain(g, alternatives(g, id)[k]));
            }
            assert(rest.contains(rest[0]));
            let k = choose|k: int| 0 <= k < all.len() && all[k] == rest[0];
            assert(!conforms(g, Map::empty(), all[k], t));
            if rest.len() == 1 {
                assert(alternatives(h, r) =~= rest);
            } else {
                lemma_apply(g, FN_UNION@, rest);
                assert(alternatives(h, r) == rest);
            }
        }
    } else {
        assert(all =~= seq![id]);
        assert(all[0] == id);
        if conforms(g, Map::empty(), id, t) {
            lemma_empty(g);
        }
    }
}

/// What is left are the types that do not conform.
proof fn lemma_not_under(g: Graph, types: Seq<InstId>, t: InstId, n: nat, a: InstId)
    requires
        n <= types.len(),
    ensures
        not_under(g, types, t, n).contains(a) <==> (exists|k: int| 0 <= k < n && types[k] == a) && !conforms(
            g,
            Map::empty(),
            a,
            t,
        ),
    decreases n,
{
    if n > 0 {
        lemma_not_under(g, types, t, (n - 1) as nat, a);
        let before = not_under(g, types, t, (n - 1) as nat);
        let last = types[n - 1];
        if !conforms(g, Map::empty(), last, t) {
            assert(before.push(last)[before.len() as int] == last);
            if before.contains(a) {
                let j = choose|j: int| 0 <= j < before.len() && before[j] == a;
                assert(before.push(last)[j] == a);
            }
            if before.push(last).contains(a) {
                let j = choose|j: int|
                    0 <= j < before.push(last).len() && before.push(last)[j] == a;
                if j < before.len() {
                    assert(before[j] == a);
                }
            }
        }
    }
}

/// A name of a type: it starts with a slash, and does not lie below `/bot`.
pub open spec fn path_name(g: Graph, id: InstId) -> bool {
    name_text(g, id) matches Some(t) && t.len() > 0 && t[0] == '/' && (t == "/bot"@ || !lies_under(
        t,
        "/bot"@,
    ))
}

/// A type among which conformance is transitive: a name but for `/any`, the only value that a
/// name is, a union of such types, or an application to such types, without optional fields.
pub open spec fn ordered(g: Graph, ctx: Map<NameId, InstId>, id: InstId) -> bool
    decreases height(g, ctx, id),
    when grounded(g, ctx) && g.wf() && g.has(id)
{
    proof {
        lemma_parts_low(g, ctx, id);
    }
    if g.node(id) is Name {
        path_name(g, id) && !is_name(g, id, "/any"@)
    } else if !(g.node(id) is ApplyFn) || is_fn(g, id, FN_TAGGED_UNION@) {
        false
    } else if is_fn(g, id, FN_SINGLETON@) {
        parts(g, id).len() == 1 && (name_text(g, parts(g, id)[0]) matches Some(t) && !lies_under(t, "/bot"@))
    } else if is_fn(g, id, FN_STRUCT@) {
        forall|k: int|
            0 <= k < struct_fields(g, id).len() ==> ordered(g, ctx, (#[trigger] struct_fields(g, id)[k]).1)
                && !struct_fields(g, id)[k].2
    } else {
        forall|k: int| 0 <= k < parts(g, id).len() ==> ordered(g, ctx, #[trigger] parts(g, id)[k])
    }
}

/// What lies under what lies under a third lies under the third.
proof fn lemma_under(a: Seq<char>, b: Seq<char>, c: Seq<char>)
    requires
        lies_under(a, b),
        lies_under(b, c),
    ensures
        lies_under(a, c),
{
    assert(c =~= a.subrange(0, c.len() as int));
    if b.len() > c.len() {
        assert(a[c.len() as int] == b[c.len() as int]);
    }
}

/// A name under which another path lies is a path.
proof fn lemma_paths()
    ensures
        "/any"@.len() == 4,
        "/bot"@.len() == 4,
        "/name"@.len() == 5,
        "/any"@ != "/bot"@,
        "/any"@[0] == '/',
        "/bot"@[0] == '/',
        "/name"@[0] == '/',
        forall|c: Seq<char>|
            c.len() > 0 && c[0] == '/' && #[trigger] lies_under("/name"@, c) ==> c == "/name"@,
        forall|c: Seq<char>| c.len() > 0 && c[0] == '/' && #[trigger] lies_under("/any"@, c) ==> c == "/any"@,
{
    reveal_strlit("/any");
    reveal_strlit("/bot");
    reveal_strlit("/name");
    assert("/any"@[1] == 'a' && "/bot"@[1] == 'b');
    assert forall|c: Seq<char>| c.len() > 0 && c[0] == '/' && #[trigger] lies_under("/name"@, c) implies c
        == "/name"@ by {
        let n = "/name"@;
        assert(c =~= n.subrange(0, c.len() as int));
        assert(n[1] == 'n' && n[2] == 'a' && n[3] == 'm' && n[4] == 'e');
        assert(c.len() == 5);
        assert(c =~= n);
    }
    assert forall|c: Seq<char>| c.len() > 0 && c[0] == '/' && #[trigger] lies_under("/any"@, c) implies c
        == "/any"@ by {
        let n = "/any"@;
        assert(c =~= n.subrange(0, c.len() as int));
        assert(n[1] == 'a' && n[2] == 'n' && n[3] == 'y');
        assert(c.len() == 4);
        assert(c =~= n);
    }
}

/// Conformance is transitive among names, `/any` too.
pub proof fn names_conform_transitively(g: Graph, ctx: Map<NameId, InstId>, a: InstId, b: InstId, c: InstId)
    requires
        g.wf(),
        grounded(g, ctx),
        g.has(a),
        g.has(b),
        g.has(c),
        path_name(g, a),
        path_name(g, b),
        path_name(g, c),
        conforms(g, ctx, a, b),
        conforms(g, ctx, b, c),
    ensures
        conforms(g, ctx, a, c),
{
    lemma_paths();
    let (x, y, z) = (name_text(g, a).unwrap(), name_text(g, b).unwrap(), name_text(g, c).unwrap());
    assert(!is_fn(g, a, FN_UNION@) && !is_fn(g, b, FN_UNION@) && !is_fn(g, c, FN_UNION@));
    if a != b && b != c && a != c && z != "/any"@ && x != "/bot"@ {
        assert(shape_conforms(g, ctx, a, b));
        assert(shape_conforms(g, ctx, b, c) || y == "/bot"@);
        if lies_under(x, y) && lies_under(y, z) {
            lemma_under(x, y, z);
        }
        assert(shape_conforms(g, ctx, a, c));
    }
}

/// The type of a field of an ordered struct.
proof fn lemma_ordered_field(g: Graph, ctx: Map<NameId, InstId>, id: InstId, n: Seq<char>) -> (k: int)
    requires
        g.wf(),
        grounded(g, ctx),
        g.has(id),
        last_field(g, struct_fields(g, id), n) is Some,
    ensures
        0 <= k < struct_fields(g, id).len(),
        is_name(g, struct_fields(g, id)[k].0, n),
        last_field(g, struct_fields(g, id), n) == Some(struct_fields(g, id)[k].1),
{
    lemma_last_place(g, struct_fields(g, id), n)
}

/// The place of the last field of a name.
proof fn lemma_last_place(g: Graph, fields: Seq<(InstId, InstId, bool)>, n: Seq<char>) -> (k: int)
    requires
        last_field(g, fields, n) is Some,
    ensures
        0 <= k < fields.len(),
        is_name(g, fields[k].0, n),
        last_field(g, fields, n) == Some(fields[k].1),
    decreases fields.len(),
{
    if is_name(g, fields.last().0, n) {
        fields.len() - 1
    } else {
        lemma_last_place(g, fields.drop_last(), n)
    }
}

/// Conformance is transitive among names, only values that are names, unions and applications of
/// such types, where no field is optional and nothing is `/any`.
#[verifier::rlimit(60)]
pub proof fn conformance_is_transitive(g: Graph, ctx: Map<NameId, InstId>, a: InstId, b: InstId, c: InstId)
    requires
        g.wf(),
        grounded(g, ctx),
        g.has(a),
        g.has(b),
        g.has(c),
        ordered(g, ctx, a),
        ordered(g, ctx, b),
        ordered(g, ctx, c),
        conforms(g, ctx, a, b),
        conforms(g, ctx, b, c),
    ensures
        conforms(g, ctx, a, c),
    decreases height(g, ctx, a) + height(g, ctx, b) + height(g, ctx, c), 1nat,
{
    lemma_kinds();
    lemma_paths();
    lemma_more_kinds();
    lemma_parts_low(g, ctx, a);
    lemma_parts_low(g, ctx, b);
    lemma_parts_low(g, ctx, c);
    if a == b || b == c || a == c || is_name(g, a, "/bot"@) {
    } else if is_fn(g, a, FN_UNION@) {
        assert forall|k: int| 0 <= k < parts(g, a).len() implies conforms(g, ctx, #[trigger] parts(g, a)[k], c) by {
            conformance_is_transitive(g, ctx, parts(g, a)[k], b, c);
        }
    } else if is_name(g, b, "/bot"@) {
        assert(shape_conforms(g, ctx, a, b));
    } else if is_fn(g, b, FN_UNION@) {
        let k = choose|k: int| 0 <= k < parts(g, b).len() && conforms(g, ctx, a, #[trigger] parts(g, b)[k]);
        assert(conforms(g, ctx, parts(g, b)[k], c));
        conformance_is_transitive(g, ctx, a, parts(g, b)[k], c);
    } else if is_fn(g, c, FN_UNION@) {
        let k = choose|k: int| 0 <= k < parts(g, c).len() && conforms(g, ctx, b, #[trigger] parts(g, c)[k]);
        conformance_is_transitive(g, ctx, a, b, parts(g, c)[k]);
    } else {
        assert(shape_conforms(g, ctx, a, b));
        assert(shape_conforms(g, ctx, b, c));
        if g.node(a) is Name {
            if g.node(b) is Name {
                if g.node(c) is Name {
                    names_conform_transitively(g, ctx, a, b, c);
                }
            }
        } else if is_fn(g, a, FN_SINGLETON@) {
            if g.node(b) is Name && g.node(c) is Name {
                let x = name_text(g, parts(g, a)[0]).unwrap();
                let y = name_text(g, b).unwrap();
                let z = name_text(g, c).unwrap();
                if lies_under(x, y) && lies_under(y, z) {
                    lemma_under(x, y, z);
                }
                if lies_under(x, y) && z == "/name"@ {
                    assert(y =~= x.subrange(0, y.len() as int));
                }
                assert(has_base_type(g, parts(g, a)[0], c));
                assert(shape_conforms(g, ctx, a, c));
            }
        } else {
            lemma_shapes_transitive(g, ctx, a, b, c);
        }
    }
}

/// Other names of types are different.
proof fn lemma_more_kinds()
    ensures
        FN_SINGLETON@ != FN_UNION@,
        FN_SINGLETON@ != FN_STRUCT@,
        FN_SINGLETON@ != FN_TAGGED_UNION@,
        FN_STRUCT@ != FN_UNION@,
        FN_STRUCT@ != FN_LIST@,
        FN_STRUCT@ != FN_MAP@,
        FN_STRUCT@ != FN_PAIR@,
        FN_STRUCT@ != FN_TUPLE@,
{
    reveal_strlit("fn:Union");
    reveal_strlit("fn:Singleton");
    reveal_strlit("fn:Struct");
    reveal_strlit("fn:TaggedUnion");
    reveal_strlit("fn:List");
    reveal_strlit("fn:Map");
    reveal_strlit("fn:Pair");
    reveal_strlit("fn:Tuple");
    assert("fn:Union"@.len() == 8 && "fn:Singleton"@.len() == 12 && "fn:Struct"@.len() == 9);
    assert("fn:TaggedUnion"@.len() == 14 && "fn:List"@.len() == 7 && "fn:Map"@.len() == 6);
    assert("fn:Pair"@.len() == 7 && "fn:Tuple"@.len() == 8);
}

/// Applications of one kind conform transitively.
#[verifier::rlimit(60)]
proof fn lemma_shapes_transitive(g: Graph, ctx: Map<NameId, InstId>, a: InstId, b: InstId, c: InstId)
    requires
        g.wf(),
        grounded(g, ctx),
        g.has(a),
        g.has(b),
        g.has(c),
        a != b,
        b != c,
        a != c,
        ordered(g, ctx, a),
        ordered(g, ctx, b),
        ordered(g, ctx, c),
        g.node(a) is ApplyFn,
        !is_fn(g, a, FN_UNION@),
        !is_fn(g, b, FN_UNION@),
        !is_fn(g, c, FN_UNION@),
        !is_fn(g, a, FN_SINGLETON@),
        !is_name(g, b, "/bot"@),
        shape_conforms(g, ctx, a, b),
        shape_conforms(g, ctx, b, c),
    ensures
        conforms(g, ctx, a, c),
    decreases height(g, ctx, a) + height(g, ctx, b) + height(g, ctx, c), 0nat,
{
    lemma_kinds();
    lemma_paths();
    lemma_more_kinds();
    lemma_parts_low(g, ctx, a);
    lemma_parts_low(g, ctx, b);
    lemma_parts_low(g, ctx, c);
    assert(fn_name(g, a) == fn_name(g, b));
    assert(g.node(b) is ApplyFn);
    assert(!is_fn(g, b, FN_SINGLETON@));
    assert(fn_name(g, b) == fn_name(g, c));
    if is_fn(g, a, FN_STRUCT@) {
        assert(fields_conform(g, ctx, a, b));
        assert(fields_conform(g, ctx, b, c));
        assert forall|k: int| 0 <= k < struct_fields(g, c).len() implies field_conforms(
            g,
            ctx,
            a,
            #[trigger] struct_fields(g, c)[k],
        ) by {
            let f = struct_fields(g, c)[k];
            assert(field_conforms(g, ctx, b, f));
            if let Some(n) = name_text(g, f.0) {
                assert(last_field(g, struct_fields(g, b), n) is Some);
                let m = lemma_ordered_field(g, ctx, b, n);
                let e = struct_fields(g, b)[m];
                assert(field_conforms(g, ctx, a, e));
                assert(last_field(g, struct_fields(g, a), n) is Some);
                let j = lemma_ordered_field(g, ctx, a, n);
                assert(ordered(g, ctx, struct_fields(g, a)[j].1));
                conformance_is_transitive(g, ctx, struct_fields(g, a)[j].1, e.1, f.1);
            }
        }
        assert(fields_conform(g, ctx, a, c));
    } else {
        let (x, y, z) = (parts(g, a), parts(g, b), parts(g, c));
        assert forall|k: int|
            0 <= k < x.len() && k < y.len() && k < z.len() && conforms(g, ctx, x[k], y[k]) && conforms(
                g,
                ctx,
                y[k],
                z[k],
            ) implies #[trigger] conforms(g, ctx, x[k], z[k]) by {
            assert(ordered(g, ctx, parts(g, a)[k]) && ordered(g, ctx, parts(g, b)[k]) && ordered(
                g,
                ctx,
                parts(g, c)[k],
            ));
            conformance_is_transitive(g, ctx, x[k], y[k], z[k]);
        }
        assert forall|k: int|
            0 <= k < x.len() && k < y.len() && k < z.len() && conforms(g, ctx, z[k], y[k]) && conforms(
                g,
                ctx,
                y[k],
                x[k],
            ) implies #[trigger] conforms(g, ctx, z[k], x[k]) by {
            assert(ordered(g, ctx, parts(g, a)[k]) && ordered(g, ctx, parts(g, b)[k]) && ordered(
                g,
                ctx,
                parts(g, c)[k],
            ));
            conformance_is_transitive(g, ctx, z[k], y[k], x[k]);
        }
        if parts_conform(g, ctx, a, b, 0) && parts_conform(g, ctx, b, c, 0) {
            assert(parts_conform(g, ctx, a, c, 0)) by {
                assert forall|k: int| 0 <= k < x.len() implies conforms(
                    g,
                    ctx,
                    #[trigger] parts(g, a)[k],
                    #[trigger] parts(g, c)[k],
                ) by {
                    assert(conforms(g, ctx, parts(g, a)[k], parts(g, b)[k]));
                    assert(conforms(g, ctx, parts(g, b)[k], parts(g, c)[k]));
                }
            }
        }
        if x.len() > 0 && y.len() > 0 && z.len() > 0 && conforms(g, ctx, x[0], y[0]) && conforms(
            g,
            ctx,
            y[0],
            z[0],
        ) {
            assert(conforms(g, ctx, x[0], z[0]));
        }
        if parts_conform(g, ctx, b, a, 1) && parts_conform(g, ctx, c, b, 1) {
            assert(parts_conform(g, ctx, c, a, 1)) by {
                assert forall|k: int| 1 <= k < z.len() implies conforms(
                    g,
                    ctx,
                    #[trigger] parts(g, c)[k],
                    #[trigger] parts(g, a)[k],
                ) by {
                    assert(conforms(g, ctx, parts(g, c)[k], parts(g, b)[k]));
                    assert(conforms(g, ctx, parts(g, b)[k], parts(g, a)[k]));
                }
            }
        }
    }
    assert(shape_conforms(g, ctx, a, c));
}

/// The types are names, or all are ordered.
pub open spec fn all_ordered(g: Graph, ctx: Map<NameId, InstId>, types: Seq<InstId>) -> bool {
    ||| forall|i: int| 0 <= i < types.len() ==> path_name(g, #[trigger] types[i])
    ||| forall|i: int| 0 <= i < types.len() ==> ordered(g, ctx, #[trigger] types[i])
}

/// The variants in an ordered type are known: it has none.
proof fn lemma_ordered_known(g: Graph, ctx: Map<NameId, InstId>, id: InstId)
    requires
        g.wf(),
        grounded(g, ctx),
        g.has(id),
        ordered(g, ctx, id),
    ensures
        known(g, ctx, id),
    decreases height(g, ctx, id),
{
    lemma_kinds();
    lemma_more_kinds();
    lemma_parts_low(g, ctx, id);
    if is_fn(g, id, FN_UNION@) {
        assert forall|k: int| 0 <= k < parts(g, id).len() implies known(g, ctx, #[trigger] parts(g, id)[k]) by {
            assert(ordered(g, ctx, parts(g, id)[k]));
            lemma_ordered_known(g, ctx, parts(g, id)[k]);
        }
    }
}

/// The upper bound of types is above all of them. It is empty if and only if there is no
/// alternative at all, `/any` if one of the types is, and otherwise one of the alternatives of the
/// types or a union of such. This is of types whose alternatives are names, or among which
/// conformance is transitive.
pub proof fn an_upper_bound_bounds(g: Graph, ctx: Map<NameId, InstId>, types: Seq<InstId>)
    requires
        g.wf(),
        grounded(g, ctx),
        ids_below(types, g.nodes.len()),
        small(upper(g, ctx, types).0),
        all_ordered(g, ctx, flatten(g, types, types.len())),
        forall|m: int|
            0 <= m < flatten(g, types, types.len()).len() ==> !is_fn(
                g,
                #[trigger] flatten(g, types, types.len())[m],
                FN_EMPTY_TYPE@,
            ),
    ensures
        ({
            let (h, u) = upper(g, ctx, types);
            let flat = flatten(g, types, types.len());
            let some_any = exists|i: int| 0 <= i < types.len() && is_name(g, #[trigger] types[i], "/any"@);
            &&& forall|i: int| 0 <= i < types.len() ==> conforms(h, ctx, #[trigger] types[i], u)
            &&& is_fn(h, u, FN_EMPTY_TYPE@) <==> flat.len() == 0
            &&& some_any ==> is_name(h, u, "/any"@)
            &&& !some_any && flat.len() > 0 ==> flat.contains(u) || (is_fn(h, u, FN_UNION@) && forall|k: int|
                0 <= k < parts(h, u).len() ==> flat.contains(#[trigger] parts(h, u)[k]))
        }),
{
    let (h, u) = upper(g, ctx, types);
    let flat = flatten(g, types, types.len());
    lemma_kinds();
    lemma_upper(g, ctx, types);
    lemma_flatten(g, types, types.len());
    assert(all_known(g, ctx, flat)) by {
        assert forall|i: int| 0 <= i < flat.len() implies known(g, ctx, #[trigger] flat[i]) by {
            if path_name(g, flat[i]) {
                assert(!is_fn(g, flat[i], FN_UNION@));
            } else {
                lemma_ordered_known(g, ctx, flat[i]);
            }
        }
    }
    assert(transitive_on(g, ctx, flat)) by {
        assert forall|a: InstId, b: InstId, c: InstId|
            flat.contains(a) && flat.contains(b) && flat.contains(c) && #[trigger] conforms(g, ctx, a, b)
                && #[trigger] conforms(g, ctx, b, c) implies conforms(g, ctx, a, c) by {
            let (i, j, k) = (flat.index_of(a), flat.index_of(b), flat.index_of(c));
            assert(flat[i] == a && flat[j] == b && flat[k] == c);
            if path_name(g, a) && path_name(g, b) && path_name(g, c) {
                names_conform_transitively(g, ctx, a, b, c);
            } else {
                conformance_is_transitive(g, ctx, a, b, c);
            }
        }
    }
    assert forall|i: int| 0 <= i < types.len() implies conforms(h, ctx, #[trigger] types[i], u) by {
        an_upper_bound_is_above(g, ctx, types, i);
    }
    if exists|i: int| 0 <= i < types.len() && is_name(g, #[trigger] types[i], "/any"@) {
        let i = choose|i: int| 0 <= i < types.len() && is_name(g, #[trigger] types[i], "/any"@);
        lemma_name(g, "/any"@);
        assert(alternatives(g, types[i])[0] == types[i]);
        assert(flat.contains(alternatives(g, types[i])[0]));
    } else if flat.len() == 0 {
        lemma_empty(g);
    } else {
        let kept = reduced(g, ctx, flat, flat.len());
        lemma_reduced(g, ctx, flat, flat.len());
        lemma_kept_below(g, kept, flat);
        if kept.len() == 1 {
            assert(flat.contains(kept[0]));
            let m = flat.index_of(kept[0]);
            assert(flat[m] == u);
            lemma_same(g, h, ctx, u);
        } else {
            lemma_apply(g, FN_UNION@, kept);
        }
    }
}

} // verus!
