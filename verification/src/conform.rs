//! Conformance of types.
//!
//! A type may hold variables, whose bounds a context gives. Conformance follows
//! the parts of a type and the bounds of its variables, so it is defined where
//! that comes to an end: where the context is *grounded* in the graph.
use vstd::prelude::*;

use crate::ir::{ids_below, Graph, Inst, InstId, Ir, NameId, Node};
use crate::text::{starts_with, str_eq};
use crate::type_expr::{
    apply_fn_args, apply_fn_name, copy_ids, is_singleton_type, is_struct_type,
    is_tagged_union_type, name_str, names, struct_type_fields, tagged_union_tag_field,
    tagged_union_variants, union_type_args, TypeContext, FN_FUN, FN_LIST, FN_MAP, FN_OPT,
    FN_OPTION, FN_PAIR, FN_REL, FN_SINGLETON, FN_STRUCT, FN_TAGGED_UNION, FN_TUPLE, FN_UNION,
};
use crate::type_expr::{
    args_of, fields_below, fields_from, fn_name, is_fn, is_name, name_text, struct_fields,
    tag_field, variants,
};

verus! {

/// The arguments of a type; none if it is no application.
pub open spec fn parts(g: Graph, id: InstId) -> Seq<InstId> {
    match g.node(id) {
        Node::ApplyFn { args, .. } => args,
        _ => Seq::empty(),
    }
}

/// `h` falls from every type to its parts and from every variable to its bound.
pub open spec fn descends(g: Graph, ctx: Map<NameId, InstId>, h: spec_fn(InstId) -> nat) -> bool {
    &&& forall|id: InstId, k: int|
        g.has(id) && 0 <= k < parts(g, id).len() ==> h(#[trigger] parts(g, id)[k]) < h(id)
    &&& forall|id: InstId|
        g.has(id) && (#[trigger] g.node(id)) is Var && ctx.contains_key(g.node(id)->Var_0) ==> h(
            ctx[g.node(id)->Var_0],
        ) < h(id)
}

/// The bounds are types of the graph, and unfolding variables ends.
pub open spec fn grounded(g: Graph, ctx: Map<NameId, InstId>) -> bool {
    &&& forall|v: NameId| #[trigger] ctx.contains_key(v) ==> g.has(ctx[v])
    &&& exists|h: spec_fn(InstId) -> nat| descends(g, ctx, h)
}

/// `n` is a possible height of the type.
pub open spec fn is_height(g: Graph, ctx: Map<NameId, InstId>, id: InstId, n: nat) -> bool {
    exists|h: spec_fn(InstId) -> nat| #[trigger] descends(g, ctx, h) && h(id) == n
}

/// How deep the type is once its variables are unfolded: the least possible height.
pub open spec fn height(g: Graph, ctx: Map<NameId, InstId>, id: InstId) -> nat {
    choose|n: nat|
        is_height(g, ctx, id, n) && forall|m: nat| #[trigger] is_height(g, ctx, id, m) ==> n <= m
}

/// A property that holds of a number holds of a least one.
proof fn lemma_least(p: spec_fn(nat) -> bool, n: nat) -> (m: nat)
    requires
        p(n),
    ensures
        p(m),
        forall|k: nat| #[trigger] p(k) ==> m <= k,
    decreases n,
{
    if exists|k: nat| #[trigger] p(k) && k < n {
        let k = choose|k: nat| #[trigger] p(k) && k < n;
        lemma_least(p, k)
    } else {
        n
    }
}

/// The height is a possible height and the least one.
proof fn lemma_height(g: Graph, ctx: Map<NameId, InstId>, id: InstId)
    requires
        grounded(g, ctx),
    ensures
        is_height(g, ctx, id, height(g, ctx, id)),
        forall|m: nat| #[trigger] is_height(g, ctx, id, m) ==> height(g, ctx, id) <= m,
{
    let h = choose|h: spec_fn(InstId) -> nat| descends(g, ctx, h);
    assert(is_height(g, ctx, id, h(id)));
    let p = |n: nat| is_height(g, ctx, id, n);
    assert(p(h(id)));
    let m = lemma_least(p, h(id));
    assert(is_height(g, ctx, id, m));
    assert forall|k: nat| #[trigger] is_height(g, ctx, id, k) implies m <= k by {
        assert(p(k));
    }
}

/// The parts of a type are less high than the type.
pub proof fn lemma_part(g: Graph, ctx: Map<NameId, InstId>, id: InstId, k: int)
    requires
        grounded(g, ctx),
        g.has(id),
        0 <= k < parts(g, id).len(),
    ensures
        height(g, ctx, parts(g, id)[k]) < height(g, ctx, id),
{
    lemma_height(g, ctx, id);
    let part = parts(g, id)[k];
    lemma_height(g, ctx, part);
    let h = choose|h: spec_fn(InstId) -> nat|
        #[trigger] descends(g, ctx, h) && h(id) == height(g, ctx, id);
    assert(is_height(g, ctx, part, h(part)));
}

/// The bound of a variable is less high than the variable.
pub proof fn lemma_bound(g: Graph, ctx: Map<NameId, InstId>, id: InstId)
    requires
        grounded(g, ctx),
        g.has(id),
        g.node(id) is Var,
        ctx.contains_key(g.node(id)->Var_0),
    ensures
        height(g, ctx, ctx[g.node(id)->Var_0]) < height(g, ctx, id),
{
    lemma_height(g, ctx, id);
    let b = ctx[g.node(id)->Var_0];
    lemma_height(g, ctx, b);
    let h = choose|h: spec_fn(InstId) -> nat|
        #[trigger] descends(g, ctx, h) && h(id) == height(g, ctx, id);
    assert(is_height(g, ctx, b, h(b)));
}

/// The types of the fields that arguments give are less high than a limit that
/// all arguments are below.
proof fn lemma_fields_low(g: Graph, ctx: Map<NameId, InstId>, args: Seq<InstId>, i: int, limit: nat)
    requires
        grounded(g, ctx),
        g.wf(),
        ids_below(args, g.nodes.len()),
        0 <= i,
        forall|k: int| 0 <= k < args.len() ==> height(g, ctx, #[trigger] args[k]) < limit,
    ensures
        forall|k: int|
            0 <= k < fields_from(g, args, i).len() ==> height(
                g,
                ctx,
                (#[trigger] fields_from(g, args, i)[k]).1,
            ) < limit,
    decreases args.len() - i,
{
    if i < args.len() {
        let all = fields_from(g, args, i);
        if is_fn(g, args[i], FN_OPT@) {
            lemma_fields_low(g, ctx, args, i + 1, limit);
            let rest = fields_from(g, args, i + 1);
            let o = parts(g, args[i]);
            if o.len() == 2 {
                lemma_part(g, ctx, args[i], 1);
                assert(all =~= seq![(o[0], o[1], true)] + rest);
                assert forall|k: int| 0 <= k < all.len() implies height(g, ctx, (#[trigger] all[k]).1)
                    < limit by {
                    if k > 0 {
                        assert(all[k] == rest[k - 1]);
                    }
                }
            }
        } else if i + 1 < args.len() {
            lemma_fields_low(g, ctx, args, i + 2, limit);
            let rest = fields_from(g, args, i + 2);
            assert(all =~= seq![(args[i], args[i + 1], false)] + rest);
            assert forall|k: int| 0 <= k < all.len() implies height(g, ctx, (#[trigger] all[k]).1)
                < limit by {
                if k > 0 {
                    assert(all[k] == rest[k - 1]);
                }
            }
        }
    }
}

/// The types of the fields of a struct are less high than the struct.
pub proof fn lemma_field(g: Graph, ctx: Map<NameId, InstId>, id: InstId)
    requires
        grounded(g, ctx),
        g.wf(),
        g.has(id),
    ensures
        forall|k: int|
            0 <= k < struct_fields(g, id).len() ==> height(
                g,
                ctx,
                (#[trigger] struct_fields(g, id)[k]).1,
            ) < height(g, ctx, id),
        fields_below(struct_fields(g, id), id.0 as nat),
{
    if is_fn(g, id, FN_STRUCT@) {
        let args = parts(g, id);
        assert forall|k: int| 0 <= k < args.len() implies height(g, ctx, #[trigger] args[k]) < height(
            g,
            ctx,
            id,
        ) by {
            lemma_part(g, ctx, id, k);
        }
        lemma_fields_low(g, ctx, args, 0, height(g, ctx, id));
        crate::type_expr::lemma_fields_below(g, args, 0, id.0 as nat);
    }
}

/// What the definition of conformance needs to know of heights.
pub proof fn lemma_parts_low(g: Graph, ctx: Map<NameId, InstId>, id: InstId)
    requires
        grounded(g, ctx),
        g.wf(),
        g.has(id),
    ensures
        forall|k: int|
            0 <= k < parts(g, id).len() ==> height(g, ctx, #[trigger] parts(g, id)[k]) < height(
                g,
                ctx,
                id,
            ) && g.has(parts(g, id)[k]),
        args_of(g, id, FN_UNION@) matches Some(args) ==> args == parts(g, id),
        variants(g, id) matches Some((tags, structs)) ==> tags.len() == structs.len() && (forall|k: int|
            0 <= k < structs.len() ==> height(g, ctx, #[trigger] structs[k]) < height(g, ctx, id)
                && g.has(structs[k])) && (forall|k: int|
            0 <= k < tags.len() ==> g.has(#[trigger] tags[k])) && tag_field(g, id) is Some && g.has(
            tag_field(g, id).unwrap(),
        ),
        (g.node(id) matches Node::Var(v) && ctx.contains_key(v)) ==> height(
            g,
            ctx,
            ctx[g.node(id)->Var_0],
        ) < height(g, ctx, id) && g.has(ctx[g.node(id)->Var_0]),
        forall|n: Seq<char>|
            (#[trigger] last_field(g, struct_fields(g, id), n)) matches Some(t) ==> height(g, ctx, t)
                < height(g, ctx, id) && g.has(t),
        forall|k: int|
            0 <= k < struct_fields(g, id).len() ==> height(
                g,
                ctx,
                (#[trigger] struct_fields(g, id)[k]).1,
            ) < height(g, ctx, id) && g.has(struct_fields(g, id)[k].1),
{
    assert forall|k: int| 0 <= k < parts(g, id).len() implies height(
        g,
        ctx,
        #[trigger] parts(g, id)[k],
    ) < height(g, ctx, id) && g.has(parts(g, id)[k]) by {
        lemma_part(g, ctx, id, k);
    }
    if g.node(id) is Var && ctx.contains_key(g.node(id)->Var_0) {
        lemma_bound(g, ctx, id);
    }
    lemma_field(g, ctx, id);
    assert forall|n: Seq<char>|
        (#[trigger] last_field(g, struct_fields(g, id), n)) matches Some(t) ==> height(g, ctx, t)
            < height(g, ctx, id) && g.has(t) by {
        lemma_last_field(g, struct_fields(g, id), n);
    }
    if let Some((tags, structs)) = variants(g, id) {
        let args = parts(g, id);
        assert forall|k: int| 0 <= k < structs.len() implies height(g, ctx, #[trigger] structs[k])
            < height(g, ctx, id) && g.has(structs[k]) by {
            assert(structs[k] == args[2 * k + 2]);
        }
        assert forall|k: int| 0 <= k < tags.len() implies g.has(#[trigger] tags[k]) by {
            assert(tags[k] == args[2 * k + 1]);
        }
        assert(g.has(args[0]));
    }
}

/// The type of the last field of that name.
pub open spec fn last_field(g: Graph, fields: Seq<(InstId, InstId, bool)>, name: Seq<char>) -> Option<InstId>
    decreases fields.len(),
{
    if fields.len() == 0 {
        None
    } else if is_name(g, fields.last().0, name) {
        Some(fields.last().1)
    } else {
        last_field(g, fields.drop_last(), name)
    }
}

/// A union is not a singleton.
proof fn lemma_kinds_apart()
    ensures
        FN_UNION@ != FN_SINGLETON@,
{
    reveal_strlit("fn:Union");
    reveal_strlit("fn:Singleton");
    assert("fn:Union"@.len() == 8);
    assert("fn:Singleton"@.len() == 12);
}

/// The type that is found is that of a field.
proof fn lemma_last_field(g: Graph, fields: Seq<(InstId, InstId, bool)>, name: Seq<char>)
    ensures
        last_field(g, fields, name) matches Some(t) ==> exists|k: int|
            0 <= k < fields.len() && (#[trigger] fields[k]).1 == t,
    decreases fields.len(),
{
    if fields.len() > 0 {
        if !is_name(g, fields.last().0, name) {
            lemma_last_field(g, fields.drop_last(), name);
            if let Some(t) = last_field(g, fields.drop_last(), name) {
                let k = choose|k: int|
                    0 <= k < fields.drop_last().len() && (#[trigger] fields.drop_last()[k]).1 == t;
                assert(fields[k].1 == t);
            }
        } else {
            assert(fields[fields.len() - 1].1 == fields.last().1);
        }
    }
}

/// `left` is `right` or lies below it in the hierarchy of names.
pub open spec fn lies_under(left: Seq<char>, right: Seq<char>) -> bool {
    right.is_prefix_of(left) && (left.len() == right.len() || left[right.len() as int] == '/')
}

/// Whether `left` is `right` or lies below it: `/a/b` lies below `/a`.
pub fn name_under(left: &str, right: &str) -> (r: bool)
    ensures
        r == lies_under(left@, right@),
{
    if !starts_with(left, right) {
        return false;
    }
    let n = right.unicode_len();
    left.unicode_len() == n || left.get_char(n) == '/'
}

/// The constant has the base type of that name.
pub open spec fn constant_has(g: Graph, constant: Node, base: Seq<char>) -> bool {
    match constant {
        Node::Number(_) => base == "/number"@ || base == "/any"@,
        Node::Float(_) => base == "/float64"@ || base == "/any"@,
        Node::String(_) => base == "/string"@ || base == "/any"@,
        Node::Bool(_) => base == "/bool"@ || base == "/any"@,
        Node::Time(_) => base == "/time"@ || base == "/any"@,
        Node::Duration(_) => base == "/duration"@ || base == "/any"@,
        Node::Bytes(_) => base == "/bytes"@ || base == "/any"@,
        Node::Name(n) => base == "/name"@ || base == "/any"@ || lies_under(g.name(n), base),
        _ => false,
    }
}

/// The constant `c` has the base type `t`.
pub open spec fn has_base_type(g: Graph, c: InstId, t: InstId) -> bool {
    name_text(g, t) matches Some(base) && constant_has(g, g.node(c), base)
}

/// Checks if a constant has a given base type.
pub fn const_has_base_type(ir: &Ir, const_id: InstId, type_id: InstId) -> (r: bool)
    requires
        ir@.wf(),
        ir@.has(const_id),
        ir@.has(type_id),
    ensures
        r == has_base_type(ir@, const_id, type_id),
{
    let base = match name_str(ir, type_id) {
        Some(n) => n,
        None => return false,
    };
    match ir.get(const_id) {
        Inst::Number(_) => str_eq(base, "/number") || str_eq(base, "/any"),
        Inst::Float(_) => str_eq(base, "/float64") || str_eq(base, "/any"),
        Inst::String(_) => str_eq(base, "/string") || str_eq(base, "/any"),
        Inst::Bool(_) => str_eq(base, "/bool") || str_eq(base, "/any"),
        Inst::Time(_) => str_eq(base, "/time") || str_eq(base, "/any"),
        Inst::Duration(_) => str_eq(base, "/duration") || str_eq(base, "/any"),
        Inst::Bytes(_) => str_eq(base, "/bytes") || str_eq(base, "/any"),
        Inst::Name(n) => str_eq(base, "/name") || str_eq(base, "/any") || name_under(
            ir.resolve_name(*n),
            base,
        ),
        _ => false,
    }
}

/// `a` and `b` are the same instruction or equal constants.
pub open spec fn same_constant(g: Graph, a: InstId, b: InstId) -> bool {
    a == b || match (g.node(a), g.node(b)) {
        (Node::Name(x), Node::Name(y)) => x == y,
        (Node::Number(x), Node::Number(y)) => x == y,
        (Node::Float(x), Node::Float(y)) => x == y,
        (Node::String(x), Node::String(y)) => x == y,
        (Node::Bool(x), Node::Bool(y)) => x == y,
        _ => false,
    }
}

/// Whether two instructions are the same or equal constants.
pub fn ir_eq(ir: &Ir, a: InstId, b: InstId) -> (r: bool)
    requires
        ir@.has(a),
        ir@.has(b),
    ensures
        r == same_constant(ir@, a, b),
{
    if a == b {
        return true;
    }
    match (ir.get(a), ir.get(b)) {
        (Inst::Name(x), Inst::Name(y)) => *x == *y,
        (Inst::Number(x), Inst::Number(y)) => *x == *y,
        (Inst::Float(x), Inst::Float(y)) => *x == *y,
        (Inst::String(x), Inst::String(y)) => *x == *y,
        (Inst::Bool(x), Inst::Bool(y)) => *x == *y,
        _ => false,
    }
}

/// The type `/name` conforms to `right`.
pub open spec fn takes_names(g: Graph, ctx: Map<NameId, InstId>, right: InstId) -> bool
    decreases height(g, ctx, right),
    when grounded(g, ctx) && g.wf() && g.has(right)
{
    proof {
        lemma_parts_low(g, ctx, right);
    }
    ||| name_text(g, right) matches Some(r) && (r == "/any"@ || lies_under("/name"@, r))
    ||| is_fn(g, right, FN_UNION@) && exists|k: int|
        0 <= k < parts(g, right).len() && takes_names(g, ctx, #[trigger] parts(g, right)[k])
    ||| g.node(right) is Var && ctx.contains_key(g.node(right)->Var_0) && takes_names(
        g,
        ctx,
        ctx[g.node(right)->Var_0],
    )
}

/// `left` conforms to the type `/name`.
pub open spec fn gives_names(g: Graph, ctx: Map<NameId, InstId>, left: InstId) -> bool
    decreases height(g, ctx, left),
    when grounded(g, ctx) && g.wf() && g.has(left)
{
    proof {
        lemma_parts_low(g, ctx, left);
    }
    ||| name_text(g, left) matches Some(l) && l.len() > 0 && l[0] == '/'
    ||| is_fn(g, left, FN_UNION@) && forall|k: int|
        0 <= k < parts(g, left).len() ==> gives_names(g, ctx, #[trigger] parts(g, left)[k])
    ||| is_fn(g, left, FN_SINGLETON@) && parts(g, left).len() == 1 && g.node(parts(g, left)[0]) is Name
    ||| g.node(left) is Var && ctx.contains_key(g.node(left)->Var_0) && gives_names(
        g,
        ctx,
        ctx[g.node(left)->Var_0],
    )
}

/// The struct `left` has the tag field of a tagged union, which holds a name.
pub open spec fn has_tag(g: Graph, ctx: Map<NameId, InstId>, left: InstId, field: InstId) -> bool {
    match name_text(g, field) {
        Some(n) => match last_field(g, struct_fields(g, left), n) {
            Some(t) => gives_names(g, ctx, t),
            None => false,
        },
        None => true,
    }
}

/// `left` conforms to `right` as a set of values: every alternative of a union
/// on the left conforms, to some alternative of a union on the right. A tagged union
/// stands for the union of its variants, each with the tag field added, which holds a name;
/// variants of two tagged unions have the same tag.
pub open spec fn conforms(g: Graph, ctx: Map<NameId, InstId>, left: InstId, right: InstId) -> bool
    decreases height(g, ctx, left) + height(g, ctx, right), 3nat,
    when grounded(g, ctx) && g.wf() && g.has(left) && g.has(right)
{
    proof {
        lemma_parts_low(g, ctx, left);
        lemma_parts_low(g, ctx, right);
    }
    if left == right || is_name(g, right, "/any"@) || is_name(g, left, "/bot"@) {
        true
    } else if is_fn(g, left, FN_TAGGED_UNION@) {
        match variants(g, left) {
            Some((tags, structs)) => forall|k: int|
                0 <= k < structs.len() ==> variant_conforms(
                    g,
                    ctx,
                    tag_field(g, left).unwrap(),
                    tags[k],
                    #[trigger] structs[k],
                    right,
                ),
            None => false,
        }
    } else if is_fn(g, left, FN_UNION@) {
        forall|k: int|
            0 <= k < parts(g, left).len() ==> conforms(g, ctx, #[trigger] parts(g, left)[k], right)
    } else if is_fn(g, right, FN_TAGGED_UNION@) {
        if g.node(left) is Var && ctx.contains_key(g.node(left)->Var_0) {
            conforms(g, ctx, ctx[g.node(left)->Var_0], right)
        } else {
            match variants(g, right) {
                Some((tags, structs)) => exists|k: int|
                    0 <= k < structs.len() && struct_in_variant(
                        g,
                        ctx,
                        left,
                        tag_field(g, right).unwrap(),
                        #[trigger] structs[k],
                    ),
                None => false,
            }
        }
    } else if is_fn(g, right, FN_UNION@) {
        exists|k: int|
            0 <= k < parts(g, right).len() && conforms(g, ctx, left, #[trigger] parts(g, right)[k])
    } else {
        shape_conforms(g, ctx, left, right)
    }
}

/// The struct `left` conforms to the struct `right`, field by field.
pub open spec fn fields_conform(g: Graph, ctx: Map<NameId, InstId>, left: InstId, right: InstId) -> bool
    decreases height(g, ctx, left) + height(g, ctx, right), 1nat,
    when grounded(g, ctx) && g.wf() && g.has(left) && g.has(right)
{
    proof {
        lemma_parts_low(g, ctx, left);
        lemma_parts_low(g, ctx, right);
    }
    forall|k: int|
        0 <= k < struct_fields(g, right).len() ==> field_conforms(
            g,
            ctx,
            left,
            #[trigger] struct_fields(g, right)[k],
        )
}

/// `left` conforms to a variant of a tagged union with its tag field.
pub open spec fn struct_in_variant(
    g: Graph,
    ctx: Map<NameId, InstId>,
    left: InstId,
    field: InstId,
    variant: InstId,
) -> bool
    decreases height(g, ctx, left) + height(g, ctx, variant), 2nat,
    when grounded(g, ctx) && g.wf() && g.has(left) && g.has(variant)
{
    is_fn(g, left, FN_STRUCT@) && has_tag(g, ctx, left, field) && fields_conform(
        g,
        ctx,
        left,
        variant,
    )
}

/// The parts of `left` conform to those of `right` pairwise, from `from` on.
pub open spec fn parts_conform(g: Graph, ctx: Map<NameId, InstId>, left: InstId, right: InstId, from: int) -> bool
    decreases height(g, ctx, left) + height(g, ctx, right), 1nat,
    when grounded(g, ctx) && g.wf() && g.has(left) && g.has(right)
{
    proof {
        lemma_parts_low(g, ctx, left);
        lemma_parts_low(g, ctx, right);
    }
    &&& parts(g, left).len() == parts(g, right).len()
    &&& forall|k: int|
        from <= k < parts(g, left).len() && 0 <= k && k < parts(g, right).len() ==> conforms(
            g,
            ctx,
            #[trigger] parts(g, left)[k],
            #[trigger] parts(g, right)[k],
        )
}

/// The struct `left` has what the field `f` asks for: a field of that name whose
/// type conforms, or none where the field is optional.
pub open spec fn field_conforms(g: Graph, ctx: Map<NameId, InstId>, left: InstId, f: (InstId, InstId, bool)) -> bool
    decreases height(g, ctx, left) + height(g, ctx, f.1), 0nat,
    when grounded(g, ctx) && g.wf() && g.has(left) && g.has(f.1)
{
    proof {
        lemma_parts_low(g, ctx, left);
    }
    match name_text(g, f.0) {
        Some(n) => match last_field(g, struct_fields(g, left), n) {
            Some(t) => conforms(g, ctx, t, f.1),
            None => f.2,
        },
        None => true,
    }
}

/// `left` conforms to `right`, neither of them a union.
pub open spec fn shape_conforms(g: Graph, ctx: Map<NameId, InstId>, left: InstId, right: InstId) -> bool
    decreases height(g, ctx, left) + height(g, ctx, right), 2nat,
    when grounded(g, ctx) && g.wf() && g.has(left) && g.has(right)
{
    proof {
        lemma_parts_low(g, ctx, left);
        lemma_parts_low(g, ctx, right);
    }
    if left == right || is_name(g, right, "/any"@) || is_name(g, left, "/bot"@) {
        true
    } else if g.node(left) is Name && g.node(right) is Name {
        let l = name_text(g, left).unwrap();
        let r = name_text(g, right).unwrap();
        (r == "/name"@ && l.len() > 0 && l[0] == '/') || lies_under(l, r)
    } else if is_fn(g, left, FN_SINGLETON@) && parts(g, left).len() == 1 {
        has_base_type(g, parts(g, left)[0], right)
    } else if g.node(left) is Var && ctx.contains_key(g.node(left)->Var_0) {
        conforms(g, ctx, ctx[g.node(left)->Var_0], right)
    } else if g.node(right) is Var && ctx.contains_key(g.node(right)->Var_0) {
        conforms(g, ctx, left, ctx[g.node(right)->Var_0])
    } else if fn_name(g, left) != fn_name(g, right) {
        false
    } else if is_fn(g, left, FN_LIST@) {
        parts(g, left).len() == 1 && parts_conform(g, ctx, left, right, 0)
    } else if is_fn(g, left, FN_MAP@) {
        parts(g, left).len() == 2 && parts_conform(g, ctx, left, right, 0)
    } else if is_fn(g, left, FN_PAIR@) {
        parts(g, left).len() == 2 && parts_conform(g, ctx, left, right, 0)
    } else if is_fn(g, left, FN_TUPLE@) {
        parts_conform(g, ctx, left, right, 0)
    } else if is_fn(g, left, FN_STRUCT@) {
        fields_conform(g, ctx, left, right)
    } else if is_fn(g, left, FN_FUN@) {
        &&& parts(g, left).len() > 0
        &&& parts(g, left).len() == parts(g, right).len()
        &&& conforms(g, ctx, parts(g, left)[0], parts(g, right)[0])
        &&& parts_conform(g, ctx, right, left, 1)
    } else if is_fn(g, left, FN_REL@) {
        parts_conform(g, ctx, left, right, 0)
    } else if is_fn(g, left, FN_OPTION@) {
        parts(g, left).len() == 1 && parts_conform(g, ctx, left, right, 0)
    } else {
        false
    }
}

/// A variant of a tagged union, with its tag field, has what the field `f` asks for.
pub open spec fn variant_field_conforms(
    g: Graph,
    ctx: Map<NameId, InstId>,
    field: InstId,
    variant: InstId,
    f: (InstId, InstId, bool),
) -> bool
    decreases height(g, ctx, variant) + height(g, ctx, f.1), 0nat,
    when grounded(g, ctx) && g.wf() && g.has(variant) && g.has(f.1)
{
    proof {
        lemma_parts_low(g, ctx, variant);
    }
    match name_text(g, f.0) {
        Some(n) => if is_name(g, field, n) {
            takes_names(g, ctx, f.1)
        } else {
            match last_field(g, struct_fields(g, variant), n) {
                Some(t) => conforms(g, ctx, t, f.1),
                None => f.2,
            }
        },
        None => true,
    }
}

/// A variant of a tagged union, with its tag field, conforms to the struct `right`, field by
/// field.
pub open spec fn variant_fields_conform(
    g: Graph,
    ctx: Map<NameId, InstId>,
    field: InstId,
    variant: InstId,
    right: InstId,
) -> bool
    decreases height(g, ctx, variant) + height(g, ctx, right), 1nat,
    when grounded(g, ctx) && g.wf() && g.has(variant) && g.has(right)
{
    proof {
        lemma_parts_low(g, ctx, right);
    }
    forall|k: int|
        0 <= k < struct_fields(g, right).len() ==> variant_field_conforms(
            g,
            ctx,
            field,
            variant,
            #[trigger] struct_fields(g, right)[k],
        )
}

/// A variant of a tagged union, with its tag field, conforms to `right`.
pub open spec fn variant_conforms(
    g: Graph,
    ctx: Map<NameId, InstId>,
    field: InstId,
    tag: InstId,
    variant: InstId,
    right: InstId,
) -> bool
    decreases height(g, ctx, variant) + height(g, ctx, right), 4nat,
    when grounded(g, ctx) && g.wf() && g.has(variant) && g.has(right)
{
    proof {
        lemma_parts_low(g, ctx, right);
    }
    if is_name(g, right, "/any"@) {
        true
    } else if is_fn(g, right, FN_STRUCT@) {
        variant_fields_conform(g, ctx, field, variant, right)
    } else if is_fn(g, right, FN_TAGGED_UNION@) {
        match variants(g, right) {
            Some((tags, structs)) => same_constant(g, field, tag_field(g, right).unwrap()) && exists|k: int|
                0 <= k < structs.len() && same_constant(g, tag, tags[k]) && conforms(
                    g,
                    ctx,
                    variant,
                    #[trigger] structs[k],
                ),
            None => false,
        }
    } else if is_fn(g, right, FN_UNION@) {
        exists|k: int|
            0 <= k < parts(g, right).len() && variant_conforms(
                g,
                ctx,
                field,
                tag,
                variant,
                #[trigger] parts(g, right)[k],
            )
    } else if g.node(right) is Var && ctx.contains_key(g.node(right)->Var_0) {
        variant_conforms(g, ctx, field, tag, variant, ctx[g.node(right)->Var_0])
    } else {
        false
    }
}

/// Checks if `left` conforms to `right` as a set of values.
///
/// Every alternative of a union on the left must conform, and to some alternative
/// of a union on the right. A tagged union stands for its variants.
pub fn set_conforms(ir: &Ir, ctx: &TypeContext, left: InstId, right: InstId) -> (r: bool)
    requires
        ir@.wf(),
        grounded(ir@, ctx@),
        ir@.has(left),
        ir@.has(right),
    ensures
        r == conforms(ir@, ctx@, left, right),
    decreases height(ir@, ctx@, left) + height(ir@, ctx@, right), 3nat,
{
    let ghost g = ir@;
    proof {
        lemma_parts_low(g, ctx@, left);
        lemma_parts_low(g, ctx@, right);
    }
    if left == right || names(ir, right, "/any") || names(ir, left, "/bot") {
        return true;
    }
    if is_tagged_union_type(ir, left) {
        return tagged_union_set_conforms_left(ir, ctx, left, right);
    }
    if let Some(args) = union_type_args(ir, left) {
        let mut k: usize = 0;
        while k < args.len()
            invariant
                k <= args@.len(),
                forall|j: int| 0 <= j < k ==> conforms(g, ctx@, #[trigger] parts(g, left)[j], right),
            decreases args@.len() - k,
        {
            assert(args@[k as int] == parts(g, left)[k as int]);
            if !set_conforms(ir, ctx, args[k], right) {
                return false;
            }
            k += 1;
        }
        return true;
    }
    if is_tagged_union_type(ir, right) {
        if let Inst::Var(v) = ir.get(left) {
            if let Some(bound) = ctx.get(*v) {
                return set_conforms(ir, ctx, *bound, right);
            }
        }
        return tagged_union_set_conforms_right(ir, ctx, left, right);
    }
    if let Some(args) = union_type_args(ir, right) {
        let mut k: usize = 0;
        while k < args.len()
            invariant
                k <= args@.len(),
                forall|j: int| 0 <= j < k ==> !conforms(g, ctx@, left, #[trigger] parts(g, right)[j]),
            decreases args@.len() - k,
        {
            assert(args@[k as int] == parts(g, right)[k as int]);
            if set_conforms(ir, ctx, left, args[k]) {
                return true;
            }
            k += 1;
        }
        return false;
    }
    type_conforms(ir, ctx, left, right)
}

/// The arguments of an application; none if it is no application.
fn parts_vec(ir: &Ir, id: InstId) -> (r: Vec<InstId>)
    requires
        ir@.wf(),
        ir@.has(id),
    ensures
        r@ == parts(ir@, id),
{
    match apply_fn_args(ir, id) {
        Some(args) => copy_ids(args),
        None => {
            let v: Vec<InstId> = Vec::new();
            assert(v@ =~= parts(ir@, id));
            v
        },
    }
}

/// Whether the arguments from `from` on conform pairwise.
fn all_conform(ir: &Ir, ctx: &TypeContext, left: InstId, right: InstId, from: usize) -> (r: bool)
    requires
        ir@.wf(),
        grounded(ir@, ctx@),
        ir@.has(left),
        ir@.has(right),
    ensures
        r == parts_conform(ir@, ctx@, left, right, from as int),
    decreases height(ir@, ctx@, left) + height(ir@, ctx@, right), 1nat,
{
    let ghost g = ir@;
    proof {
        lemma_parts_low(g, ctx@, left);
        lemma_parts_low(g, ctx@, right);
    }
    let la = parts_vec(ir, left);
    let ra = parts_vec(ir, right);
    if la.len() != ra.len() {
        return false;
    }
    let mut k: usize = from;
    while k < la.len()
        invariant
            from <= k,
            forall|j: int|
                from <= j < k && j < parts(g, left).len() && j < parts(g, right).len() ==> conforms(
                    g,
                    ctx@,
                    #[trigger] parts(g, left)[j],
                    #[trigger] parts(g, right)[j],
                ),
        decreases la.len() - k,
    {
        assert(la@[k as int] == parts(g, left)[k as int]);
        assert(ra@[k as int] == parts(g, right)[k as int]);
        if !set_conforms(ir, ctx, la[k], ra[k]) {
            return false;
        }
        k += 1;
    }
    true
}

/// Checks structural conformance of types that are no unions.
pub fn type_conforms(ir: &Ir, ctx: &TypeContext, left: InstId, right: InstId) -> (r: bool)
    requires
        ir@.wf(),
        grounded(ir@, ctx@),
        ir@.has(left),
        ir@.has(right),
    ensures
        r == shape_conforms(ir@, ctx@, left, right),
    decreases height(ir@, ctx@, left) + height(ir@, ctx@, right), 2nat,
{
    let ghost g = ir@;
    proof {
        lemma_parts_low(g, ctx@, left);
        lemma_parts_low(g, ctx@, right);
    }
    if left == right || names(ir, right, "/any") || names(ir, left, "/bot") {
        return true;
    }
    if let (Some(l), Some(r)) = (name_str(ir, left), name_str(ir, right)) {
        return (str_eq(r, "/name") && l.unicode_len() > 0 && l.get_char(0) == '/') || name_under(l, r);
    }
    let la = parts_vec(ir, left);
    let ra = parts_vec(ir, right);
    if is_singleton_type(ir, left) && la.len() == 1 {
        assert(g.has(parts(g, left)[0]));
        return const_has_base_type(ir, la[0], right);
    }
    if let Inst::Var(v) = ir.get(left) {
        if let Some(bound) = ctx.get(*v) {
            return set_conforms(ir, ctx, *bound, right);
        }
    }
    if let Inst::Var(v) = ir.get(right) {
        if let Some(bound) = ctx.get(*v) {
            return set_conforms(ir, ctx, left, *bound);
        }
    }
    let (f, same) = match (apply_fn_name(ir, left), apply_fn_name(ir, right)) {
        (Some(l), Some(r)) => (l, str_eq(l, r)),
        _ => return false,
    };
    if !same {
        return false;
    }
    if str_eq(f, FN_LIST) {
        la.len() == 1 && all_conform(ir, ctx, left, right, 0)
    } else if str_eq(f, FN_MAP) {
        la.len() == 2 && all_conform(ir, ctx, left, right, 0)
    } else if str_eq(f, FN_PAIR) {
        la.len() == 2 && all_conform(ir, ctx, left, right, 0)
    } else if str_eq(f, FN_TUPLE) {
        all_conform(ir, ctx, left, right, 0)
    } else if str_eq(f, FN_STRUCT) {
        struct_type_conforms(ir, ctx, left, right)
    } else if str_eq(f, FN_FUN) {
        if la.len() != ra.len() || la.len() == 0 {
            return false;
        }
        assert(la@[0] == parts(g, left)[0] && ra@[0] == parts(g, right)[0]);
        if !set_conforms(ir, ctx, la[0], ra[0]) {
            return false;
        }
        all_conform(ir, ctx, right, left, 1)
    } else if str_eq(f, FN_REL) {
        all_conform(ir, ctx, left, right, 0)
    } else if str_eq(f, FN_OPTION) {
        la.len() == 1 && all_conform(ir, ctx, left, right, 0)
    } else {
        false
    }
}

/// The type of the last field of that name.
fn find_last_field(ir: &Ir, fields: &Vec<(InstId, InstId, bool)>, name: &str) -> (r: Option<InstId>)
    requires
        ir@.wf(),
        fields_below(fields@, ir@.nodes.len()),
    ensures
        r == last_field(ir@, fields@, name@),
{
    let mut k: usize = fields.len();
    assert(fields@.take(k as int) =~= fields@);
    while k > 0
        invariant
            k <= fields@.len(),
            last_field(ir@, fields@, name@) == last_field(ir@, fields@.take(k as int), name@),
        decreases k,
    {
        assert(fields@.take(k as int).drop_last() =~= fields@.take(k - 1));
        if names(ir, fields[k - 1].0, name) {
            return Some(fields[k - 1].1);
        }
        k -= 1;
    }
    None
}

/// Struct subtyping: every field of `right` is a field of `left` of a conforming
/// type, or is optional and absent from `left`. `left` may have more fields.
fn struct_type_conforms(ir: &Ir, ctx: &TypeContext, left: InstId, right: InstId) -> (r: bool)
    requires
        ir@.wf(),
        grounded(ir@, ctx@),
        ir@.has(left),
        ir@.has(right),
    ensures
        r == fields_conform(ir@, ctx@, left, right),
    decreases height(ir@, ctx@, left) + height(ir@, ctx@, right), 1nat,
{
    let ghost g = ir@;
    proof {
        lemma_parts_low(g, ctx@, left);
        lemma_parts_low(g, ctx@, right);
    }
    let lf = struct_type_fields(ir, left);
    let rf = struct_type_fields(ir, right);
    let mut k: usize = 0;
    while k < rf.len()
        invariant
            k <= rf@.len(),
            forall|j: int|
                0 <= j < k ==> field_conforms(g, ctx@, left, #[trigger] struct_fields(g, right)[j]),
        decreases rf@.len() - k,
    {
        assert(rf@[k as int] == struct_fields(g, right)[k as int]);
        if let Some(n) = name_str(ir, rf[k].0) {
            match find_last_field(ir, &lf, n) {
                Some(t) => {
                    assert(last_field(g, struct_fields(g, left), n@) == Some(t));
                    if !set_conforms(ir, ctx, t, rf[k].1) {
                        return false;
                    }
                },
                None => {
                    if !rf[k].2 {
                        return false;
                    }
                },
            }
        }
        k += 1;
    }
    true
}

/// Whether every variant of the tagged union `left` conforms to `right`.
fn tagged_union_set_conforms_left(ir: &Ir, ctx: &TypeContext, left: InstId, right: InstId) -> (r: bool)
    requires
        ir@.wf(),
        grounded(ir@, ctx@),
        ir@.has(left),
        ir@.has(right),
    ensures
        r == match variants(ir@, left) {
            Some((tags, structs)) => forall|k: int|
                0 <= k < structs.len() ==> variant_conforms(
                    ir@,
                    ctx@,
                    tag_field(ir@, left).unwrap(),
                    tags[k],
                    #[trigger] structs[k],
                    right,
                ),
            None => false,
        },
    decreases height(ir@, ctx@, left) + height(ir@, ctx@, right), 1nat,
{
    let ghost g = ir@;
    proof {
        lemma_parts_low(g, ctx@, left);
    }
    match (tagged_union_variants(ir, left), tagged_union_tag_field(ir, left)) {
        (Some((tags, structs)), Some(field)) => {
            let mut k: usize = 0;
            while k < structs.len()
                invariant
                    k <= structs@.len(),
                    forall|j: int|
                        0 <= j < k ==> variant_conforms(
                            g,
                            ctx@,
                            field,
                            tags@[j],
                            #[trigger] structs@[j],
                            right,
                        ),
                decreases structs@.len() - k,
            {
                assert(variants(g, left).unwrap().1[k as int] == structs@[k as int]);
                assert(variants(g, left).unwrap().0[k as int] == tags@[k as int]);
                if !expanded_variant_conforms(ir, ctx, field, tags[k], structs[k], right) {
                    return false;
                }
                k += 1;
            }
            true
        },
        _ => false,
    }
}

/// Whether the type `/name` conforms to `right`.
fn tag_conforms(ir: &Ir, ctx: &TypeContext, right: InstId) -> (r: bool)
    requires
        ir@.wf(),
        grounded(ir@, ctx@),
        ir@.has(right),
    ensures
        r == takes_names(ir@, ctx@, right),
    decreases height(ir@, ctx@, right),
{
    let ghost g = ir@;
    proof {
        lemma_parts_low(g, ctx@, right);
    }
    if let Some(r) = name_str(ir, right) {
        return str_eq(r, "/any") || name_under("/name", r);
    }
    if let Inst::Var(v) = ir.get(right) {
        if let Some(bound) = ctx.get(*v) {
            return tag_conforms(ir, ctx, *bound);
        }
    }
    if let Some(alts) = union_type_args(ir, right) {
        let mut k: usize = 0;
        while k < alts.len()
            invariant
                k <= alts@.len(),
                forall|j: int| 0 <= j < k ==> !takes_names(g, ctx@, #[trigger] parts(g, right)[j]),
            decreases alts@.len() - k,
        {
            assert(alts@[k as int] == parts(g, right)[k as int]);
            if tag_conforms(ir, ctx, alts[k]) {
                return true;
            }
            k += 1;
        }
    }
    false
}

/// Whether `left` conforms to the type `/name`.
fn conforms_to_tag(ir: &Ir, ctx: &TypeContext, left: InstId) -> (r: bool)
    requires
        ir@.wf(),
        grounded(ir@, ctx@),
        ir@.has(left),
    ensures
        r == gives_names(ir@, ctx@, left),
    decreases height(ir@, ctx@, left),
{
    let ghost g = ir@;
    proof {
        lemma_parts_low(g, ctx@, left);
        lemma_kinds_apart();
    }
    if let Some(l) = name_str(ir, left) {
        return l.unicode_len() > 0 && l.get_char(0) == '/';
    }
    if let Inst::Var(v) = ir.get(left) {
        if let Some(bound) = ctx.get(*v) {
            return conforms_to_tag(ir, ctx, *bound);
        }
    }
    if is_singleton_type(ir, left) {
        let args = parts_vec(ir, left);
        if args.len() == 1 {
            assert(g.has(parts(g, left)[0]));
            return match ir.get(args[0]) {
                Inst::Name(_) => true,
                _ => false,
            };
        }
        return false;
    }
    if let Some(alts) = union_type_args(ir, left) {
        let mut k: usize = 0;
        while k < alts.len()
            invariant
                k <= alts@.len(),
                forall|j: int| 0 <= j < k ==> gives_names(g, ctx@, #[trigger] parts(g, left)[j]),
            decreases alts@.len() - k,
        {
            assert(alts@[k as int] == parts(g, left)[k as int]);
            if !conforms_to_tag(ir, ctx, alts[k]) {
                return false;
            }
            k += 1;
        }
        return true;
    }
    false
}

/// Whether `left` conforms to some variant of the tagged union `right`, with its tag field.
fn tagged_union_set_conforms_right(ir: &Ir, ctx: &TypeContext, left: InstId, right: InstId) -> (r: bool)
    requires
        ir@.wf(),
        grounded(ir@, ctx@),
        ir@.has(left),
        ir@.has(right),
    ensures
        r == match variants(ir@, right) {
            Some((tags, structs)) => exists|k: int|
                0 <= k < structs.len() && struct_in_variant(
                    ir@,
                    ctx@,
                    left,
                    tag_field(ir@, right).unwrap(),
                    #[trigger] structs[k],
                ),
            None => false,
        },
    decreases height(ir@, ctx@, left) + height(ir@, ctx@, right), 1nat,
{
    let ghost g = ir@;
    proof {
        lemma_parts_low(g, ctx@, right);
    }
    match (tagged_union_variants(ir, right), tagged_union_tag_field(ir, right)) {
        (Some((_tags, structs)), Some(field)) => {
            let mut k: usize = 0;
            while k < structs.len()
                invariant
                    k <= structs@.len(),
                    forall|j: int|
                        0 <= j < k ==> !struct_in_variant(
                            g,
                            ctx@,
                            left,
                            field,
                            #[trigger] structs@[j],
                        ),
                decreases structs@.len() - k,
            {
                assert(variants(g, right).unwrap().1[k as int] == structs@[k as int]);
                if expanded_variant_conforms_right(ir, ctx, left, field, structs[k]) {
                    return true;
                }
                k += 1;
            }
            false
        },
        _ => false,
    }
}

/// Whether a variant of a tagged union, with its tag field, conforms to the struct `right`.
fn variant_struct_conforms(
    ir: &Ir,
    ctx: &TypeContext,
    field: InstId,
    variant: InstId,
    right: InstId,
) -> (r: bool)
    requires
        ir@.wf(),
        grounded(ir@, ctx@),
        ir@.has(field),
        ir@.has(variant),
        ir@.has(right),
    ensures
        r == variant_fields_conform(ir@, ctx@, field, variant, right),
    decreases height(ir@, ctx@, variant) + height(ir@, ctx@, right), 1nat,
{
    let ghost g = ir@;
    proof {
        lemma_parts_low(g, ctx@, variant);
        lemma_parts_low(g, ctx@, right);
    }
    let lf = struct_type_fields(ir, variant);
    let rf = struct_type_fields(ir, right);
    let mut k: usize = 0;
    while k < rf.len()
        invariant
            k <= rf@.len(),
            forall|j: int|
                0 <= j < k ==> variant_field_conforms(
                    g,
                    ctx@,
                    field,
                    variant,
                    #[trigger] struct_fields(g, right)[j],
                ),
        decreases rf@.len() - k,
    {
        assert(rf@[k as int] == struct_fields(g, right)[k as int]);
        if let Some(n) = name_str(ir, rf[k].0) {
            if names(ir, field, n) {
                if !tag_conforms(ir, ctx, rf[k].1) {
                    return false;
                }
            } else {
                match find_last_field(ir, &lf, n) {
                    Some(t) => {
                        assert(last_field(g, struct_fields(g, variant), n@) == Some(t));
                        if !set_conforms(ir, ctx, t, rf[k].1) {
                            return false;
                        }
                    },
                    None => {
                        if !rf[k].2 {
                            return false;
                        }
                    },
                }
            }
        }
        k += 1;
    }
    true
}

/// Whether a variant of a tagged union, with its tag field, conforms to `right`: to a struct,
/// to a variant of another tagged union with its tag field, to an alternative of a union, or
/// to what bounds a variable.
fn expanded_variant_conforms(
    ir: &Ir,
    ctx: &TypeContext,
    field: InstId,
    tag: InstId,
    variant: InstId,
    right: InstId,
) -> (r: bool)
    requires
        ir@.wf(),
        grounded(ir@, ctx@),
        ir@.has(field),
        ir@.has(tag),
        ir@.has(variant),
        ir@.has(right),
    ensures
        r == variant_conforms(ir@, ctx@, field, tag, variant, right),
    decreases height(ir@, ctx@, variant) + height(ir@, ctx@, right), 4nat,
{
    let ghost g = ir@;
    proof {
        lemma_parts_low(g, ctx@, right);
    }
    if names(ir, right, "/any") {
        return true;
    }
    if is_struct_type(ir, right) {
        return variant_struct_conforms(ir, ctx, field, variant, right);
    }
    if is_tagged_union_type(ir, right) {
        match (tagged_union_variants(ir, right), tagged_union_tag_field(ir, right)) {
            (Some((tags, structs)), Some(right_field)) => {
                if !ir_eq(ir, field, right_field) {
                    return false;
                }
                let mut k: usize = 0;
                while k < structs.len()
                    invariant
                        k <= structs@.len(),
                        forall|j: int|
                            0 <= j < k ==> !(same_constant(g, tag, tags@[j]) && conforms(
                                g,
                                ctx@,
                                variant,
                                #[trigger] structs@[j],
                            )),
                    decreases structs@.len() - k,
                {
                    assert(variants(g, right).unwrap().1[k as int] == structs@[k as int]);
                    assert(variants(g, right).unwrap().0[k as int] == tags@[k as int]);
                    if ir_eq(ir, tag, tags[k]) && set_conforms(ir, ctx, variant, structs[k]) {
                        return true;
                    }
                    k += 1;
                }
                return false;
            },
            _ => return false,
        }
    }
    if let Some(args) = union_type_args(ir, right) {
        let mut k: usize = 0;
        while k < args.len()
            invariant
                k <= args@.len(),
                forall|j: int|
                    0 <= j < k ==> !variant_conforms(
                        g,
                        ctx@,
                        field,
                        tag,
                        variant,
                        #[trigger] parts(g, right)[j],
                    ),
            decreases args@.len() - k,
        {
            assert(args@[k as int] == parts(g, right)[k as int]);
            if expanded_variant_conforms(ir, ctx, field, tag, variant, args[k]) {
                return true;
            }
            k += 1;
        }
        return false;
    }
    if let Inst::Var(v) = ir.get(right) {
        if let Some(bound) = ctx.get(*v) {
            return expanded_variant_conforms(ir, ctx, field, tag, variant, *bound);
        }
    }
    false
}

/// Whether `left` conforms to a variant of a tagged union, with its tag field.
fn expanded_variant_conforms_right(
    ir: &Ir,
    ctx: &TypeContext,
    left: InstId,
    field: InstId,
    variant: InstId,
) -> (r: bool)
    requires
        ir@.wf(),
        grounded(ir@, ctx@),
        ir@.has(left),
        ir@.has(field),
        ir@.has(variant),
    ensures
        r == struct_in_variant(ir@, ctx@, left, field, variant),
    decreases height(ir@, ctx@, left) + height(ir@, ctx@, variant), 2nat,
{
    proof {
        lemma_parts_low(ir@, ctx@, left);
    }
    if !is_struct_type(ir, left) {
        return false;
    }
    if let Some(n) = name_str(ir, field) {
        let fields = struct_type_fields(ir, left);
        match find_last_field(ir, &fields, n) {
            Some(t) => {
                assert(last_field(ir@, struct_fields(ir@, left), n@) == Some(t));
                if !conforms_to_tag(ir, ctx, t) {
                    return false;
                }
            },
            None => return false,
        }
    }
    struct_type_conforms(ir, ctx, left, variant)
}

} // verus!
