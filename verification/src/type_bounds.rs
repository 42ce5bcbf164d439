//! Upper and lower bounds of types.
use vstd::prelude::*;

use crate::conform::{ir_eq, set_conforms};
use crate::conform::{conforms, descends, grounded, height, parts, same_constant};
use crate::ir::{ids_below, Graph, Inst, InstId, Ir, NameId};
use crate::type_expr::{
    copy_ids, empty_type, find_or_create_name, is_any, is_empty_type, new_union_or_single,
    union_type_args, TypeContext, FN_EMPTY_TYPE, FN_UNION,
};
use crate::type_expr::{alternatives, empty_node, is_fn, is_name, name_node, union_node};

verus! {

/// The sum of `h` over the first `n` ids.
spec fn total(h: spec_fn(InstId) -> nat, n: nat) -> nat
    decreases n,
{
    if n == 0 {
        0
    } else {
        total(h, (n - 1) as nat) + h(InstId((n - 1) as usize))
    }
}

proof fn lemma_total(h: spec_fn(InstId) -> nat, n: nat, id: InstId)
    requires
        id.0 < n <= usize::MAX,
    ensures
        h(id) <= total(h, n),
    decreases n,
{
    if id.0 < n - 1 {
        lemma_total(h, (n - 1) as nat, id);
    }
}

/// A context stays grounded when the graph grows.
pub proof fn lemma_grounded_grows(g: Graph, later: Graph, ctx: Map<NameId, InstId>)
    requires
        grounded(g, ctx),
        g.wf(),
        later.wf(),
        g.extended_by(later),
    ensures
        grounded(later, ctx),
{
    let h = choose|h: spec_fn(InstId) -> nat| descends(g, ctx, h);
    let top = total(h, g.nodes.len());
    let l = |id: InstId|
        if id.0 < g.nodes.len() {
            h(id)
        } else {
            (top + 1 + id.0) as nat
        };
    assert forall|id: InstId| later.has(id) && g.has(id) implies later.node(id) == g.node(id) by {
        assert(g.nodes[id.0 as int] == later.nodes[id.0 as int]);
    }
    assert forall|id: InstId, k: int| later.has(id) && 0 <= k < parts(later, id).len() implies l(
        #[trigger] parts(later, id)[k],
    ) < l(id) by {
        let part = parts(later, id)[k];
        assert(later.nodes[id.0 as int].fits(id.0 as nat, later.names.len(), later.strings.len()));
        assert(part.0 < id.0);
        if g.has(id) {
            assert(parts(g, id)[k] == part);
        } else if g.has(part) {
            lemma_total(h, g.nodes.len(), part);
        }
    }
    assert forall|id: InstId|
        later.has(id) && (#[trigger] later.node(id)) is Var && ctx.contains_key(
            later.node(id)->Var_0,
        ) implies l(ctx[later.node(id)->Var_0]) < l(id) by {
        let b = ctx[later.node(id)->Var_0];
        assert(g.has(b));
        if g.has(id) {
            assert(g.node(id) is Var);
        } else {
            lemma_total(h, g.nodes.len(), b);
        }
    }
    assert(descends(later, ctx, l));
}

/// The empty context is grounded.
pub proof fn lemma_grounded_empty(g: Graph)
    requires
        g.wf(),
    ensures
        grounded(g, Map::empty()),
{
    let h = |id: InstId| id.0 as nat;
    assert forall|id: InstId, k: int| g.has(id) && 0 <= k < parts(g, id).len() implies h(
        #[trigger] parts(g, id)[k],
    ) < h(id) by {
        assert(g.nodes[id.0 as int].fits(id.0 as nat, g.names.len(), g.strings.len()));
    }
    assert(descends(g, Map::empty(), h));
}

/// A context whose bounds are names is grounded.
pub proof fn lemma_grounded_names(g: Graph, ctx: Map<NameId, InstId>)
    requires
        g.wf(),
        forall|v: NameId| #[trigger]
            ctx.contains_key(v) ==> g.has(ctx[v]) && g.node(ctx[v]) is Name,
    ensures
        grounded(g, ctx),
{
    let h = |id: InstId|
        if g.node(id) is Name {
            0
        } else {
            (id.0 + 1) as nat
        };
    assert forall|id: InstId, k: int| g.has(id) && 0 <= k < parts(g, id).len() implies h(
        #[trigger] parts(g, id)[k],
    ) < h(id) by {
        assert(g.nodes[id.0 as int].fits(id.0 as nat, g.names.len(), g.strings.len()));
    }
    assert(descends(g, ctx, h));
}

/// The alternatives of all of the first `n` types.
pub open spec fn flatten(g: Graph, types: Seq<InstId>, n: nat) -> Seq<InstId>
    decreases n,
{
    if n == 0 {
        Seq::empty()
    } else {
        flatten(g, types, (n - 1) as nat) + alternatives(g, types[n - 1])
    }
}

/// The first `n` of `kept` with the type `t` in place of those that conform to it, and whether
/// it has a place there.
pub open spec fn replaced(
    g: Graph,
    ctx: Map<NameId, InstId>,
    kept: Seq<InstId>,
    t: InstId,
    n: nat,
) -> (Seq<InstId>, bool)
    decreases n,
{
    if n == 0 {
        (Seq::empty(), false)
    } else {
        let (some, placed) = replaced(g, ctx, kept, t, (n - 1) as nat);
        if !conforms(g, ctx, kept[n - 1], t) {
            (some.push(kept[n - 1]), placed)
        } else if placed {
            (some, true)
        } else {
            (some.push(t), true)
        }
    }
}

/// `kept` with the type `t` taken in: one that conforms to a kept type is dropped, and all kept
/// types that conform to it give way.
pub open spec fn absorb(g: Graph, ctx: Map<NameId, InstId>, kept: Seq<InstId>, t: InstId) -> Seq<InstId> {
    if exists|i: int| 0 <= i < kept.len() && conforms(g, ctx, t, #[trigger] kept[i]) {
        kept
    } else {
        let (some, placed) = replaced(g, ctx, kept, t, kept.len());
        if placed {
            some
        } else {
            some.push(t)
        }
    }
}

/// The first `n` types without those that others cover.
pub open spec fn reduced(g: Graph, ctx: Map<NameId, InstId>, types: Seq<InstId>, n: nat) -> Seq<InstId>
    decreases n,
{
    if n == 0 {
        Seq::empty()
    } else {
        absorb(g, ctx, reduced(g, ctx, types, (n - 1) as nat), types[n - 1])
    }
}

/// The upper bound of `types`, and the graph that holds it.
pub open spec fn upper(g: Graph, ctx: Map<NameId, InstId>, types: Seq<InstId>) -> (Graph, InstId) {
    let flat = flatten(g, types, types.len());
    if exists|i: int| 0 <= i < types.len() && is_name(g, #[trigger] types[i], "/any"@) {
        name_node(g, "/any"@)
    } else if flat.len() == 0 {
        empty_node(g)
    } else {
        union_node(g, reduced(g, ctx, flat, flat.len()))
    }
}

/// Takes a type in.
fn absorb_type(ir: &Ir, ctx: &TypeContext, kept: &Vec<InstId>, t: InstId) -> (r: Vec<InstId>)
    requires
        ir@.wf(),
        grounded(ir@, ctx@),
        ids_below(kept@, ir@.nodes.len()),
        ir@.has(t),
    ensures
        r@ == absorb(ir@, ctx@, kept@, t),
        ids_below(r@, ir@.nodes.len()),
        r@.len() > 0,
{
    let ghost g = ir@;
    let mut i: usize = 0;
    while i < kept.len()
        invariant
            i <= kept@.len(),
            forall|j: int| 0 <= j < i ==> !conforms(g, ctx@, t, #[trigger] kept@[j]),
        decreases kept@.len() - i,
    {
        if set_conforms(ir, ctx, t, kept[i]) {
            return copy_ids(kept.as_slice());
        }
        i += 1;
    }
    let mut out: Vec<InstId> = Vec::new();
    let mut placed: bool = false;
    let mut n: usize = 0;
    assert(out@ =~= Seq::<InstId>::empty());
    while n < kept.len()
        invariant
            n <= kept@.len(),
            (out@, placed) == replaced(g, ctx@, kept@, t, n as nat),
            ids_below(out@, g.nodes.len()),
            placed ==> out@.len() > 0,
        decreases kept@.len() - n,
    {
        if !set_conforms(ir, ctx, kept[n], t) {
            out.push(kept[n]);
        } else if !placed {
            out.push(t);
            placed = true;
        }
        n += 1;
    }
    if !placed {
        out.push(t);
    }
    out
}

/// Computes the upper bound of types: the union of their alternatives without
/// those that others cover, `/any` if one of them is `/any`, and the empty type
/// of none.
pub fn upper_bound(ir: &mut Ir, ctx: &TypeContext, type_exprs: &[InstId]) -> (id: InstId)
    requires
        old(ir)@.wf(),
        grounded(old(ir)@, ctx@),
        ids_below(type_exprs@, old(ir)@.nodes.len()),
    ensures
        final(ir)@.wf(),
        (final(ir)@, id) == upper(old(ir)@, ctx@, type_exprs@),
        final(ir)@.has(id),
        old(ir)@.extended_by(final(ir)@),
{
    let ghost g = ir@;
    let mut flat: Vec<InstId> = Vec::new();
    let mut i: usize = 0;
    while i < type_exprs.len()
        invariant
            ir@ == g,
            i <= type_exprs@.len(),
            forall|j: int| 0 <= j < i ==> !is_name(g, #[trigger] type_exprs@[j], "/any"@),
            flat@ == flatten(g, type_exprs@, i as nat),
            ids_below(flat@, g.nodes.len()),
        decreases type_exprs@.len() - i,
    {
        let t = type_exprs[i];
        if is_any(ir, t) {
            return find_or_create_name(ir, "/any");
        }
        let ghost before = flat@;
        let mut alts = crate::type_expr::rel_type_alternatives(ir, t);
        flat.append(&mut alts);
        assert(flat@ =~= before + alternatives(g, t));
        i += 1;
    }
    if flat.len() == 0 {
        return empty_type(ir);
    }
    let mut kept: Vec<InstId> = Vec::new();
    let mut n: usize = 0;
    while n < flat.len()
        invariant
            ir@ == g,
            n <= flat@.len(),
            kept@ == reduced(g, ctx@, flat@, n as nat),
            ids_below(kept@, g.nodes.len()),
            n > 0 ==> kept@.len() > 0,
        decreases flat@.len() - n,
    {
        let t = flat[n];
        let next = absorb_type(ir, ctx, &kept, t);
        kept = next;
        n += 1;
    }
    new_union_or_single(ir, kept)
}

/// The intersection of `a` and `b`, which are types of `base`, and the graph that
/// holds it; `g` is `base` or a later graph.
pub open spec fn intersection(
    base: Graph,
    g: Graph,
    ctx: Map<NameId, InstId>,
    a: InstId,
    b: InstId,
) -> (Graph, InstId)
    decreases height(base, ctx, a) + height(base, ctx, b), 1nat, 0nat,
    when grounded(base, ctx) && base.wf() && base.has(a) && base.has(b)
{
    proof {
        crate::conform::lemma_parts_low(base, ctx, a);
        crate::conform::lemma_parts_low(base, ctx, b);
    }
    if same_constant(base, a, b) {
        (g, a)
    } else if is_name(base, a, "/any"@) {
        (g, b)
    } else if is_name(base, b, "/any"@) {
        (g, a)
    } else if base.node(a) is Var {
        if ctx.contains_key(base.node(a)->Var_0) {
            intersection(base, g, ctx, ctx[base.node(a)->Var_0], b)
        } else {
            empty_node(g)
        }
    } else if base.node(b) is Var {
        if ctx.contains_key(base.node(b)->Var_0) {
            intersection(base, g, ctx, a, ctx[base.node(b)->Var_0])
        } else {
            empty_node(g)
        }
    } else if conforms(g, ctx, a, b) {
        (g, a)
    } else if conforms(g, ctx, b, a) {
        (g, b)
    } else if is_fn(base, a, FN_UNION@) {
        let (h, res) = intersections(base, g, ctx, a, b, parts(base, a).len());
        upper(h, ctx, res)
    } else if is_fn(base, b, FN_UNION@) {
        upper(g, ctx, narrowed(base, g, ctx, a, b, parts(base, b).len()))
    } else {
        empty_node(g)
    }
}

/// The intersections of the first `n` alternatives of `a` with `b` that are not
/// empty, and the graph that holds them.
pub open spec fn intersections(
    base: Graph,
    g: Graph,
    ctx: Map<NameId, InstId>,
    a: InstId,
    b: InstId,
    n: nat,
) -> (Graph, Seq<InstId>)
    decreases height(base, ctx, a) + height(base, ctx, b), 0nat, n,
    when grounded(base, ctx) && base.wf() && base.has(a) && base.has(b) && n <= parts(base, a).len()
{
    proof {
        crate::conform::lemma_parts_low(base, ctx, a);
    }
    if n == 0 {
        (g, Seq::empty())
    } else {
        let (h, res) = intersections(base, g, ctx, a, b, (n - 1) as nat);
        let (k, u) = intersection(base, h, ctx, parts(base, a)[n - 1], b);
        if is_fn(k, u, FN_EMPTY_TYPE@) {
            (k, res)
        } else {
            (k, res.push(u))
        }
    }
}

/// What `a` and each of the first `n` alternatives of `b` have in common, where
/// one of the two conforms to the other.
pub open spec fn narrowed(
    base: Graph,
    g: Graph,
    ctx: Map<NameId, InstId>,
    a: InstId,
    b: InstId,
    n: nat,
) -> Seq<InstId>
    decreases n,
{
    if n == 0 {
        Seq::empty()
    } else {
        let res = narrowed(base, g, ctx, a, b, (n - 1) as nat);
        let e = parts(base, b)[n - 1];
        if conforms(g, ctx, a, e) {
            res.push(a)
        } else if conforms(g, ctx, e, a) {
            res.push(e)
        } else {
            res
        }
    }
}

/// The intersection of two types of an earlier graph.
fn intersect_from(
    ir: &mut Ir,
    ctx: &TypeContext,
    a: InstId,
    b: InstId,
    Ghost(base): Ghost<Graph>,
) -> (id: InstId)
    requires
        base.wf(),
        grounded(base, ctx@),
        base.has(a),
        base.has(b),
        base.extended_by(old(ir)@),
        old(ir)@.wf(),
    ensures
        final(ir)@.wf(),
        (final(ir)@, id) == intersection(base, old(ir)@, ctx@, a, b),
        final(ir)@.has(id),
        old(ir)@.extended_by(final(ir)@),
    decreases height(base, ctx@, a) + height(base, ctx@, b),
{
    let ghost g = ir@;
    proof {
        crate::conform::lemma_parts_low(base, ctx@, a);
        crate::conform::lemma_parts_low(base, ctx@, b);
        lemma_grounded_grows(base, g, ctx@);
        assert(base.nodes[a.0 as int] == g.nodes[a.0 as int]);
        assert(base.nodes[b.0 as int] == g.nodes[b.0 as int]);
        assert forall|n: NameId| base.has_name(n) implies base.name(n) == #[trigger] g.name(n) by {
            assert(base.names[n.0 as int] == g.names[n.0 as int]);
        }
    }
    if ir_eq(ir, a, b) {
        return a;
    }
    if is_any(ir, a) {
        return b;
    }
    if is_any(ir, b) {
        return a;
    }
    let mut next: Option<InstId> = None;
    let mut var: bool = false;
    if let Inst::Var(v) = ir.get(a) {
        var = true;
        if let Some(bound) = ctx.get(*v) {
            next = Some(*bound);
        }
    }
    if var {
        return match next {
            Some(bound) => intersect_from(ir, ctx, bound, b, Ghost(base)),
            None => empty_type(ir),
        };
    }
    if let Inst::Var(v) = ir.get(b) {
        var = true;
        if let Some(bound) = ctx.get(*v) {
            next = Some(*bound);
        }
    }
    if var {
        return match next {
            Some(bound) => intersect_from(ir, ctx, a, bound, Ghost(base)),
            None => empty_type(ir),
        };
    }
    if set_conforms(ir, ctx, a, b) {
        return a;
    }
    if set_conforms(ir, ctx, b, a) {
        return b;
    }
    let mut left: Option<Vec<InstId>> = None;
    if let Some(args) = union_type_args(ir, a) {
        left = Some(copy_ids(args));
    }
    if let Some(args) = left {
        let mut res: Vec<InstId> = Vec::new();
        let mut k: usize = 0;
        assert(args@ == parts(base, a));
        while k < args.len()
            invariant
                ir@.wf(),
                g.extended_by(ir@),
                k <= args@.len(),
                (ir@, res@) == intersections(base, g, ctx@, a, b, k as nat),
                ids_below(res@, ir@.nodes.len()),
            decreases args@.len() - k,
        {
            assert(args@[k as int] == parts(base, a)[k as int]);
            let u = intersect_from(ir, ctx, args[k], b, Ghost(base));
            if !is_empty_type(ir, u) {
                res.push(u);
            }
            k += 1;
        }
        proof {
            lemma_grounded_grows(base, ir@, ctx@);
        }
        return upper_bound(ir, ctx, res.as_slice());
    }
    let mut right: Option<Vec<InstId>> = None;
    if let Some(args) = union_type_args(ir, b) {
        right = Some(copy_ids(args));
    }
    if let Some(args) = right {
        let mut res: Vec<InstId> = Vec::new();
        let mut k: usize = 0;
        assert(args@ == parts(base, b));
        while k < args.len()
            invariant
                ir@ == g,
                k <= args@.len(),
                res@ == narrowed(base, g, ctx@, a, b, k as nat),
                ids_below(res@, ir@.nodes.len()),
            decreases args@.len() - k,
        {
            assert(args@[k as int] == parts(base, b)[k as int]);
            if set_conforms(ir, ctx, a, args[k]) {
                res.push(a);
            } else if set_conforms(ir, ctx, args[k], a) {
                res.push(args[k]);
            }
            k += 1;
        }
        return upper_bound(ir, ctx, res.as_slice());
    }
    empty_type(ir)
}

/// Computes the intersection (greatest lower bound) of two types.
pub fn intersect_type(ir: &mut Ir, ctx: &TypeContext, a: InstId, b: InstId) -> (id: InstId)
    requires
        old(ir)@.wf(),
        grounded(old(ir)@, ctx@),
        old(ir)@.has(a),
        old(ir)@.has(b),
    ensures
        final(ir)@.wf(),
        (final(ir)@, id) == intersection(old(ir)@, old(ir)@, ctx@, a, b),
        final(ir)@.has(id),
        old(ir)@.extended_by(final(ir)@),
{
    let ghost base = ir@;
    intersect_from(ir, ctx, a, b, Ghost(base))
}

/// What is left of `so_far` once it is intersected with `types[i..]` in turn, up to
/// the first empty intersection, and the graph that holds it.
pub open spec fn lower_from(
    g: Graph,
    ctx: Map<NameId, InstId>,
    so_far: InstId,
    types: Seq<InstId>,
    i: int,
) -> (Graph, InstId)
    decreases types.len() - i,
{
    if i < 0 || i >= types.len() {
        (g, so_far)
    } else {
        let (h, r) = intersection(g, g, ctx, so_far, types[i]);
        if is_fn(h, r, FN_EMPTY_TYPE@) {
            (h, r)
        } else {
            lower_from(h, ctx, r, types, i + 1)
        }
    }
}

/// The lower bound of `types`, and the graph that holds it.
pub open spec fn lower(g: Graph, ctx: Map<NameId, InstId>, types: Seq<InstId>) -> (Graph, InstId) {
    let (h, any) = name_node(g, "/any"@);
    lower_from(h, ctx, any, types, 0)
}

/// Computes the lower bound of types by intersecting them in turn, starting from
/// `/any`; the empty type as soon as an intersection is empty.
pub fn lower_bound(ir: &mut Ir, ctx: &TypeContext, type_exprs: &[InstId]) -> (id: InstId)
    requires
        old(ir)@.wf(),
        grounded(old(ir)@, ctx@),
        ids_below(type_exprs@, old(ir)@.nodes.len()),
    ensures
        final(ir)@.wf(),
        (final(ir)@, id) == lower(old(ir)@, ctx@, type_exprs@),
        final(ir)@.has(id),
        old(ir)@.extended_by(final(ir)@),
{
    let ghost g = ir@;
    let mut result = find_or_create_name(ir, "/any");
    let mut i: usize = 0;
    while i < type_exprs.len()
        invariant
            ir@.wf(),
            g.extended_by(ir@),
            ir@.has(result),
            i <= type_exprs@.len(),
            lower(g, ctx@, type_exprs@) == lower_from(ir@, ctx@, result, type_exprs@, i as int),
        decreases type_exprs@.len() - i,
    {
        proof {
            lemma_grounded_grows(g, ir@, ctx@);
        }
        result = intersect_type(ir, ctx, result, type_exprs[i]);
        if is_empty_type(ir, result) {
            return result;
        }
        i += 1;
    }
    result
}

/// The first `n` of `types` that do not conform to `t`.
pub open spec fn not_under(g: Graph, types: Seq<InstId>, t: InstId, n: nat) -> Seq<InstId>
    decreases n,
{
    if n == 0 {
        Seq::empty()
    } else {
        let rest = not_under(g, types, t, (n - 1) as nat);
        if conforms(g, Map::empty(), types[n - 1], t) {
            rest
        } else {
            rest.push(types[n - 1])
        }
    }
}

/// What is left of a type without what conforms to `t`, and the graph that holds it.
pub open spec fn without(g: Graph, t: InstId, id: InstId) -> (Graph, InstId) {
    if is_fn(g, id, FN_UNION@) {
        let rest = not_under(g, parts(g, id), t, parts(g, id).len());
        if rest.len() == 0 {
            empty_node(g)
        } else {
            union_node(g, rest)
        }
    } else if conforms(g, Map::empty(), id, t) {
        empty_node(g)
    } else {
        (g, id)
    }
}

/// Removes the alternatives that conform to `to_remove` from a union type; the
/// empty type where nothing remains.
pub fn remove_from_union_type(ir: &mut Ir, to_remove: InstId, union_type: InstId) -> (id: InstId)
    requires
        old(ir)@.wf(),
        old(ir)@.has(to_remove),
        old(ir)@.has(union_type),
    ensures
        final(ir)@.wf(),
        (final(ir)@, id) == without(old(ir)@, to_remove, union_type),
        final(ir)@.has(id),
        old(ir)@.extended_by(final(ir)@),
{
    let ghost g = ir@;
    let ctx = TypeContext::new();
    proof {
        lemma_grounded_empty(g);
    }
    let mut alts: Option<Vec<InstId>> = None;
    if let Some(args) = union_type_args(ir, union_type) {
        alts = Some(copy_ids(args));
    }
    if let Some(args) = alts {
        let mut rest: Vec<InstId> = Vec::new();
        let mut k: usize = 0;
        while k < args.len()
            invariant
                ir@ == g,
                k <= args@.len(),
                rest@ == not_under(g, args@, to_remove, k as nat),
                ids_below(rest@, g.nodes.len()),
            decreases args@.len() - k,
        {
            if !set_conforms(ir, &ctx, args[k], to_remove) {
                rest.push(args[k]);
            }
            k += 1;
        }
        if rest.len() == 0 {
            return empty_type(ir);
        }
        return new_union_or_single(ir, rest);
    }
    if set_conforms(ir, &ctx, union_type, to_remove) {
        return empty_type(ir);
    }
    union_type
}

} // verus!
