//! The values of a tagged union are those of its expansion.
use vstd::prelude::*;

use crate::conform::{parts, same_constant};
use crate::has_type::{
    all_have, all_names, declared, entries, evens, fields_hold, lemma_smaller, list_elems, map_entries,
    names_of, no_extra, odds, position, struct_entries, value_has, variant_has,
};
use crate::ir::{ids_below, Graph, InstId, NameId, Node};
use crate::type_bounds::lemma_grounded_empty;
use crate::type_expr::{
    fields_from, is_fn, struct_fields, tag_field, variants, with_apply, FN_LIST, FN_MAP, FN_OPTION,
    FN_PAIR, FN_SINGLETON, FN_STRUCT, FN_TAGGED_UNION, FN_UNION,
};
use crate::type_laws::{grows, lemma_apply, lemma_named, lemma_same, lemma_same_constants, small};
use crate::type_ops::{expanded, expansion, lemma_same_node};

verus! {

/// The elements of a value stand before it.
proof fn lemma_elems_below(g: Graph, v: InstId)
    requires
        g.wf(),
        g.has(v),
    ensures
        list_elems(g, v) matches Some(e) ==> ids_below(e, v.0 as nat),
        map_entries(g, v) matches Some((k, w)) ==> ids_below(k, v.0 as nat) && ids_below(w, v.0 as nat),
        struct_entries(g, v) matches Some((f, w)) ==> ids_below(w, v.0 as nat) && f.len() == w.len(),
{
    assert(g.nodes[v.0 as int].fits(v.0 as nat, g.names.len(), g.strings.len()));
    if let Node::ApplyFn { function, args } = g.node(v) {
        assert forall|i: int| 0 <= i < evens(args).len() implies (#[trigger] evens(args)[i]).0 < v.0 by {
            assert(evens(args)[i] == args[2 * i]);
        }
        assert forall|i: int| 0 <= i < odds(args).len() implies (#[trigger] odds(args)[i]).0 < v.0 by {
            assert(odds(args)[i] == args[2 * i + 1]);
        }
    }
}

/// What a value holds stays when the graph grows.
proof fn lemma_same_value(g: Graph, later: Graph, v: InstId)
    requires
        g.wf(),
        later.wf(),
        g.extended_by(later),
        g.has(v),
    ensures
        list_elems(later, v) == list_elems(g, v),
        map_entries(later, v) == map_entries(g, v),
        struct_entries(later, v) == struct_entries(g, v),
{
    lemma_same_node(g, later, v);
    assert(g.nodes[v.0 as int].fits(v.0 as nat, g.names.len(), g.strings.len()));
    if let Node::ApplyFn { function, args } = g.node(v) {
        assert(g.names[function.0 as int] == later.names[function.0 as int]);
        assert forall|i: int| 0 <= i < evens(args).len() implies later.node(#[trigger] evens(args)[i])
            == g.node(evens(args)[i]) by {
            assert(evens(args)[i] == args[2 * i]);
            lemma_same_node(g, later, args[2 * i]);
        }
        assert(all_names(later, evens(args)) == all_names(g, evens(args)));
        assert(names_of(later, evens(args)) =~= names_of(g, evens(args)));
    }
}

/// Whether a value has a type does not change when the graph grows.
pub proof fn typing_is_stable(g: Graph, later: Graph, t: InstId, v: InstId)
    requires
        g.wf(),
        later.wf(),
        g.extended_by(later),
        g.has(t),
        g.has(v),
    ensures
        value_has(later, t, v) == value_has(g, t, v),
    decreases t.0, 1nat,
{
    lemma_grounded_empty(g);
    lemma_same(g, later, Map::empty(), t);
    lemma_same(g, later, Map::empty(), v);
    lemma_same_value(g, later, v);
    lemma_elems_below(g, v);
    lemma_smaller(g, t);
    lemma_same_constants(g, later, v, t);
    assert(g.nodes[t.0 as int].fits(t.0 as nat, g.names.len(), g.strings.len()));
    if let Node::ApplyFn { function, args } = g.node(t) {
        assert(g.names[function.0 as int] == later.names[function.0 as int]);
        let f = g.name(function);
        assert(parts(g, t) == args);
        if f == FN_SINGLETON@ {
            if args.len() == 1 {
                lemma_same_constants(g, later, v, args[0]);
            }
        } else if f == FN_UNION@ {
            assert forall|k: int| 0 <= k < args.len() implies value_has(later, #[trigger] args[k], v)
                == value_has(g, args[k], v) by {
                typing_is_stable(g, later, args[k], v);
            }
        } else if f == FN_TAGGED_UNION@ {
            if let Some((tags, structs)) = variants(g, t) {
                let field = tag_field(g, t).unwrap();
                assert forall|k: int| 0 <= k < structs.len() implies variant_has(
                    later,
                    field,
                    tags[k],
                    #[trigger] structs[k],
                    v,
                ) == variant_has(g, field, tags[k], structs[k], v) by {
                    lemma_variant_stable(g, later, field, tags[k], structs[k], v);
                }
            }
        } else if f == FN_LIST@ {
            if args.len() == 1 && list_elems(g, v) is Some {
                lemma_all_stable(g, later, args[0], list_elems(g, v).unwrap());
            }
        } else if f == FN_MAP@ {
            if args.len() == 2 && map_entries(g, v) is Some {
                lemma_all_stable(g, later, args[0], map_entries(g, v).unwrap().0);
                lemma_all_stable(g, later, args[1], map_entries(g, v).unwrap().1);
            }
        } else if f == FN_PAIR@ {
            if args.len() == 2 && list_elems(g, v) is Some {
                let elems = list_elems(g, v).unwrap();
                if elems.len() == 2 {
                    typing_is_stable(g, later, args[0], elems[0]);
                    typing_is_stable(g, later, args[1], elems[1]);
                }
            }
        } else if f == FN_STRUCT@ {
            if let Some((vf, vv)) = struct_entries(g, v) {
                lemma_same_extra(g, later, struct_fields(g, t), vf, None);
                lemma_held(g, vf, vv, None, vf.len());
                lemma_fields_stable(g, later, t, entries(vf, vv, None, vf.len()));
            }
        } else if f == FN_OPTION@ {
            if args.len() == 1 {
                typing_is_stable(g, later, args[0], v);
            }
        }
    }
}

proof fn lemma_all_stable(g: Graph, later: Graph, t: InstId, values: Seq<InstId>)
    requires
        g.wf(),
        later.wf(),
        g.extended_by(later),
        g.has(t),
        ids_below(values, g.nodes.len()),
    ensures
        all_have(later, t, values) == all_have(g, t, values),
    decreases t.0, 2nat,
{
    assert forall|k: int| 0 <= k < values.len() implies value_has(later, t, #[trigger] values[k])
        == value_has(g, t, values[k]) by {
        typing_is_stable(g, later, t, values[k]);
    }
}

/// Every value that is held is in the graph.
spec fn all_held(g: Graph, held: Map<NameId, InstId>) -> bool {
    forall|n: NameId| #[trigger] held.contains_key(n) ==> g.has(held[n])
}

proof fn lemma_held(g: Graph, fields: Seq<NameId>, values: Seq<InstId>, skip: Option<NameId>, n: nat)
    requires
        n <= fields.len(),
        fields.len() == values.len(),
        ids_below(values, g.nodes.len()),
    ensures
        all_held(g, entries(fields, values, skip, n)),
    decreases n,
{
    if n > 0 {
        lemma_held(g, fields, values, skip, (n - 1) as nat);
        assert(values[n - 1].0 < g.nodes.len());
    }
}

proof fn lemma_same_extra(
    g: Graph,
    later: Graph,
    fields: Seq<(InstId, InstId, bool)>,
    value_fields: Seq<NameId>,
    skip: Option<NameId>,
)
    requires
        g.wf(),
        g.extended_by(later),
        forall|k: int| 0 <= k < fields.len() ==> g.has((#[trigger] fields[k]).0),
    ensures
        no_extra(later, fields, value_fields, skip) == no_extra(g, fields, value_fields, skip),
{
    assert forall|k: int| 0 <= k < fields.len() implies later.node((#[trigger] fields[k]).0) == g.node(
        fields[k].0,
    ) by {
        lemma_same_node(g, later, fields[k].0);
    }
    assert(declared(later, fields) =~= declared(g, fields));
}

proof fn lemma_fields_stable(g: Graph, later: Graph, t: InstId, held: Map<NameId, InstId>)
    requires
        g.wf(),
        later.wf(),
        g.extended_by(later),
        g.has(t),
        all_held(g, held),
    ensures
        fields_hold(later, t, held) == fields_hold(g, t, held),
    decreases t.0, 0nat,
{
    lemma_grounded_empty(g);
    lemma_same(g, later, Map::empty(), t);
    lemma_smaller(g, t);
    let fields = struct_fields(g, t);
    assert forall|k: int| 0 <= k < fields.len() implies later.node((#[trigger] fields[k]).0) == g.node(
        fields[k].0,
    ) && (g.node(fields[k].0) matches Node::Name(n) && held.contains_key(n) ==> value_has(
        later,
        fields[k].1,
        held[g.node(fields[k].0)->Name_0],
    ) == value_has(g, fields[k].1, held[g.node(fields[k].0)->Name_0])) by {
        lemma_same_node(g, later, fields[k].0);
        if let Node::Name(n) = g.node(fields[k].0) {
            if held.contains_key(n) {
                typing_is_stable(g, later, fields[k].1, held[n]);
            }
        }
    }
}

proof fn lemma_variant_stable(
    g: Graph,
    later: Graph,
    field: InstId,
    tag: InstId,
    variant: InstId,
    v: InstId,
)
    requires
        g.wf(),
        later.wf(),
        g.extended_by(later),
        g.has(field),
        g.has(tag),
        g.has(variant),
        g.has(v),
    ensures
        variant_has(later, field, tag, variant, v) == variant_has(g, field, tag, variant, v),
    decreases variant.0, 2nat,
{
    lemma_grounded_empty(g);
    lemma_same(g, later, Map::empty(), variant);
    lemma_same_node(g, later, field);
    lemma_same_value(g, later, v);
    lemma_elems_below(g, v);
    lemma_smaller(g, variant);
    if struct_entries(g, v) is Some && g.node(field) is Name {
        let (vf, vv) = struct_entries(g, v).unwrap();
        let f = g.node(field)->Name_0;
        lemma_position(vf, f, 0);
        if let Some(i) = position(vf, f, 0) {
            lemma_same_constants(g, later, vv[i], tag);
        }
        lemma_same_extra(g, later, struct_fields(g, variant), vf, Some(f));
        lemma_held(g, vf, vv, Some(f), vf.len());
        lemma_fields_stable(g, later, variant, entries(vf, vv, Some(f), vf.len()));
    }
}

/// The position is that of the first occurrence.
proof fn lemma_position(s: Seq<NameId>, n: NameId, i: int)
    requires
        0 <= i,
    ensures
        match position(s, n, i) {
            Some(k) => i <= k < s.len() && s[k] == n,
            None => forall|k: int| i <= k < s.len() ==> s[k] != n,
        },
    decreases s.len() - i,
{
    if i < s.len() && s[i] != n {
        lemma_position(s, n, i + 1);
    }
}

/// `s` is the struct that a variant expands to: the tag field with the singleton of
/// the tag, and the fields of the variant.
spec fn is_expanded(g: Graph, s: InstId, field: InstId, tag: InstId, variant: InstId) -> bool {
    &&& g.has(s)
    &&& is_fn(g, s, FN_STRUCT@)
    &&& parts(g, s).len() >= 2
    &&& parts(g, s) == seq![field, parts(g, s)[1]] + parts(g, variant)
    &&& g.has(parts(g, s)[1])
    &&& is_fn(g, parts(g, s)[1], FN_SINGLETON@)
    &&& parts(g, parts(g, s)[1]) == seq![tag]
}

proof fn lemma_expanded_grows(
    g: Graph,
    later: Graph,
    s: InstId,
    field: InstId,
    tag: InstId,
    variant: InstId,
)
    requires
        grows(g, later, Map::empty()),
        g.has(variant),
        is_expanded(g, s, field, tag, variant),
    ensures
        is_expanded(later, s, field, tag, variant),
{
    lemma_same(g, later, Map::empty(), s);
    lemma_same(g, later, Map::empty(), parts(g, s)[1]);
    lemma_same(g, later, Map::empty(), variant);
}

/// The variants are expanded one by one.
proof fn lemma_expanded(
    g: Graph,
    field: InstId,
    tags: Seq<InstId>,
    structs: Seq<InstId>,
    n: nat,
)
    requires
        g.wf(),
        g.has(field),
        ids_below(tags, g.nodes.len()),
        ids_below(structs, g.nodes.len()),
        n <= tags.len() == structs.len(),
        small(expanded(g, field, tags, structs, n).0),
    ensures
        expanded(g, field, tags, structs, n).0.wf(),
        g.extended_by(expanded(g, field, tags, structs, n).0),
        expanded(g, field, tags, structs, n).1.len() == n,
        forall|k: int|
            0 <= k < n ==> is_expanded(
                expanded(g, field, tags, structs, n).0,
                #[trigger] expanded(g, field, tags, structs, n).1[k],
                field,
                tags[k],
                structs[k],
            ),
    decreases n,
{
    if n > 0 {
        let (h, ids) = expanded(g, field, tags, structs, (n - 1) as nat);
        let tag = tags[n - 1];
        let variant = structs[n - 1];
        let k = with_apply(h, FN_SINGLETON@, seq![tag]);
        let args = seq![field, h.next()] + parts(g, variant);
        let later = with_apply(k, FN_STRUCT@, args);
        lemma_expanded(g, field, tags, structs, (n - 1) as nat);
        lemma_grounded_empty(g);
        lemma_grounded_empty(h);
        assert(ids_below(seq![tag], h.nodes.len()));
        lemma_apply(h, FN_SINGLETON@, seq![tag]);
        lemma_smaller(g, variant);
        assert forall|i: int| 0 <= i < args.len() implies (#[trigger] args[i]).0 < k.nodes.len() by {
            if i >= 2 {
                assert(args[i] == parts(g, variant)[i - 2]);
            }
        }
        lemma_apply(k, FN_STRUCT@, args);
        assert(h.extended_by(later));
        assert(g.extended_by(later));
        lemma_grounded_empty(k);
        lemma_same(g, later, Map::empty(), variant);
        lemma_same(k, later, Map::empty(), h.next());
        assert(is_expanded(later, k.next(), field, tag, variant));
        let all = ids.push(k.next());
        assert forall|i: int| 0 <= i < n implies is_expanded(
            later,
            #[trigger] all[i],
            field,
            tags[i],
            structs[i],
        ) by {
            if i < n - 1 {
                assert(all[i] == ids[i]);
                assert(h.has(structs[i]));
                lemma_expanded_grows(h, later, ids[i], field, tags[i], structs[i]);
            }
        }
    }
}

/// What the fields hold with and without the field `f`.
proof fn lemma_entries(fields: Seq<NameId>, values: Seq<InstId>, f: NameId, n: nat)
    requires
        n <= fields.len() == values.len(),
        fields.no_duplicates(),
    ensures
        forall|m: NameId|
            m != f ==> entries(fields, values, Some(f), n).contains_key(m) == #[trigger] entries(
                fields,
                values,
                None,
                n,
            ).contains_key(m) && entries(fields, values, Some(f), n)[m] == entries(
                fields,
                values,
                None,
                n,
            )[m],
        entries(fields, values, None, n).contains_key(f) <==> exists|i: int|
            0 <= i < n && fields[i] == f,
        forall|i: int|
            0 <= i < n && #[trigger] fields[i] == f ==> entries(fields, values, None, n)[f] == values[i],
    decreases n,
{
    if n > 0 {
        lemma_entries(fields, values, f, (n - 1) as nat);
        let before = entries(fields, values, None, (n - 1) as nat);
        let after = entries(fields, values, None, n);
        assert(after == before.insert(fields[n - 1], values[n - 1]));
        if fields[n - 1] == f {
            assert(fields[n - 1] == f && 0 <= n - 1 < n);
        }
        if before.contains_key(f) {
            let i = choose|i: int| 0 <= i < n - 1 && fields[i] == f;
            assert(0 <= i < n && fields[i] == f);
        }
        assert forall|i: int| 0 <= i < n && #[trigger] fields[i] == f implies after[f] == values[i] by {
            if i < n - 1 {
                assert(fields[n - 1] != f);
            }
        }
    }
}

/// A value has the struct that a variant expands to exactly where it is a value of
/// the variant.
#[verifier::rlimit(40)]
proof fn lemma_one(g: Graph, s: InstId, field: InstId, tag: InstId, variant: InstId, v: InstId)
    requires
        g.wf(),
        g.has(field),
        g.has(tag),
        g.has(variant),
        g.has(v),
        is_expanded(g, s, field, tag, variant),
        is_fn(g, variant, FN_STRUCT@),
        g.node(field) is Name,
        !declared(g, struct_fields(g, variant)).contains(g.node(field)->Name_0),
        struct_entries(g, v) matches Some((vf, vv)) ==> vf.no_duplicates(),
    ensures
        value_has(g, s, v) == variant_has(g, field, tag, variant, v),
{
    let f = g.node(field)->Name_0;
    let args = parts(g, s);
    let inner = struct_fields(g, variant);
    let outer = struct_fields(g, s);
    let single = args[1];
    lemma_elems_below(g, v);
    lemma_smaller(g, s);
    lemma_smaller(g, variant);
    lemma_shifted(g, args, parts(g, variant), 0);
    assert(args[0] == field);
    assert(fields_from(g, args, 0) == seq![(field, single, false)] + fields_from(g, args, 2));
    assert(outer == seq![(field, single, false)] + inner);
    lemma_not_struct(g, s);
    if let Some((vf, vv)) = struct_entries(g, v) {
        let held = entries(vf, vv, None, vf.len());
        let rest = entries(vf, vv, Some(f), vf.len());
        lemma_entries(vf, vv, f, vf.len());
        lemma_position(vf, f, 0);
        assert(no_extra(g, outer, vf, None) == no_extra(g, inner, vf, Some(f))) by {
            assert forall|n: NameId| #[trigger]
                declared(g, outer).contains(n) == (declared(g, inner).contains(n) || n == f) by {
                assert(outer[0] == (field, single, false));
                if declared(g, inner).contains(n) {
                    let k = choose|k: int|
                        0 <= k < inner.len() && g.node((#[trigger] inner[k]).0) == Node::Name(n);
                    assert(outer[k + 1] == inner[k]);
                }
                if declared(g, outer).contains(n) {
                    let k = choose|k: int|
                        0 <= k < outer.len() && g.node((#[trigger] outer[k]).0) == Node::Name(n);
                    if k > 0 {
                        assert(outer[k] == inner[k - 1]);
                    }
                }
            }
        }
        let first = held.contains_key(f) && value_has(g, single, held[f]);
        assert(held.contains_key(f) ==> value_has(g, single, held[f]) == same_constant(g, held[f], tag));
        assert(first == (position(vf, f, 0) matches Some(i) && same_constant(g, vv[i], tag)));
        assert(fields_hold(g, s, held) == (first && fields_hold(g, variant, rest))) by {
            assert forall|k: int| 0 <= k < inner.len() implies (match g.node((#[trigger] inner[k]).0) {
                Node::Name(n) => n != f,
                _ => true,
            }) by {
                if g.node(inner[k].0) == Node::Name(f) {
                    assert(declared(g, inner).contains(f));
                }
            }
            if fields_hold(g, s, held) {
                assert(outer[0] == (field, single, false));
                assert(first);
                assert forall|k: int| 0 <= k < inner.len() implies (match g.node(
                    (#[trigger] inner[k]).0,
                ) {
                    Node::Name(n) => if rest.contains_key(n) {
                        value_has(g, inner[k].1, rest[n])
                    } else {
                        inner[k].2
                    },
                    _ => true,
                }) by {
                    assert(outer[k + 1] == inner[k]);
                }
            }
            if first && fields_hold(g, variant, rest) {
                assert forall|k: int| 0 <= k < outer.len() implies (match g.node(
                    (#[trigger] outer[k]).0,
                ) {
                    Node::Name(n) => if held.contains_key(n) {
                        value_has(g, outer[k].1, held[n])
                    } else {
                        outer[k].2
                    },
                    _ => true,
                }) by {
                    if k > 0 {
                        assert(outer[k] == inner[k - 1]);
                    }
                }
            }
        }
    }
}

/// The fields that arguments give are found in the same way further on.
proof fn lemma_shifted(g: Graph, args: Seq<InstId>, tail: Seq<InstId>, i: int)
    requires
        args.len() == tail.len() + 2,
        0 <= i,
        forall|k: int| 0 <= k < tail.len() ==> args[k + 2] == #[trigger] tail[k],
    ensures
        fields_from(g, args, i + 2) == fields_from(g, tail, i),
    decreases tail.len() - i,
{
    if i < tail.len() {
        assert(args[i + 2] == tail[i]);
        lemma_shifted(g, args, tail, i + 1);
        if i + 1 < tail.len() {
            assert(args[i + 3] == tail[i + 1]);
            lemma_shifted(g, args, tail, i + 2);
        }
    }
}

/// A struct is checked as a struct.
proof fn lemma_not_struct(g: Graph, s: InstId)
    requires
        is_fn(g, s, FN_STRUCT@),
    ensures
        FN_STRUCT@ != FN_SINGLETON@,
        FN_STRUCT@ != FN_UNION@,
        FN_STRUCT@ != FN_TAGGED_UNION@,
        FN_STRUCT@ != FN_LIST@,
        FN_STRUCT@ != FN_MAP@,
        FN_STRUCT@ != FN_PAIR@,
{
    reveal_strlit("fn:Struct");
    reveal_strlit("fn:Singleton");
    reveal_strlit("fn:Union");
    reveal_strlit("fn:TaggedUnion");
    reveal_strlit("fn:List");
    reveal_strlit("fn:Map");
    reveal_strlit("fn:Pair");
    assert("fn:Struct"@.len() == 9);
    assert("fn:Singleton"@.len() == 12);
    assert("fn:Union"@.len() == 8);
    assert("fn:TaggedUnion"@.len() == 14);
    assert("fn:List"@.len() == 7);
    assert("fn:Map"@.len() == 6);
    assert("fn:Pair"@.len() == 7);
}

/// The tags of the values stand outside the variants: the tag field is a name, and
/// the variants are structs without it.
pub open spec fn tagged_apart(g: Graph, tu: InstId) -> bool {
    &&& is_fn(g, tu, FN_TAGGED_UNION@)
    &&& variants(g, tu) matches Some((tags, structs)) && g.node(tag_field(g, tu).unwrap()) matches Node::Name(
        f,
    ) && forall|k: int|
        0 <= k < structs.len() ==> is_fn(g, #[trigger] structs[k], FN_STRUCT@) && !declared(
            g,
            struct_fields(g, structs[k]),
        ).contains(f)
}

/// A value without repeated fields has a tagged union exactly where it has the
/// union that the tagged union expands to.
pub proof fn an_expansion_has_the_same_values(g: Graph, tu: InstId, v: InstId)
    requires
        g.wf(),
        g.has(tu),
        g.has(v),
        tagged_apart(g, tu),
        expansion(g, tu) matches Ok((h, r)) ==> small(h),
        struct_entries(g, v) matches Some((vf, vv)) ==> vf.no_duplicates(),
    ensures
        expansion(g, tu) matches Ok((h, r)) && value_has(h, r, v) == value_has(g, tu, v),
{
    let args = parts(g, tu);
    let (tags, structs) = variants(g, tu).unwrap();
    let field = tag_field(g, tu).unwrap();
    let a = g.with_name(FN_SINGLETON@);
    let b = a.with_name(FN_STRUCT@);
    let c = b.with_name(FN_UNION@);
    let (k, ids) = expanded(c, args[0], tags, structs, args.len() / 2);
    let h = with_apply(k, FN_UNION@, ids);
    let r = k.next();
    assert(expansion(g, tu) == Ok::<(Graph, InstId), crate::wellformed::TypeError>((h, r)));
    lemma_expanded_size(c, args[0], tags, structs, args.len() / 2);
    lemma_named(g, FN_SINGLETON@);
    lemma_named(a, FN_STRUCT@);
    lemma_named(b, FN_UNION@);
    lemma_smaller(g, tu);
    lemma_expanded(c, field, tags, structs, args.len() / 2);
    assert forall|i: int| 0 <= i < ids.len() implies (#[trigger] ids[i]).0 < k.nodes.len() by {
        assert(is_expanded(k, ids[i], field, tags[i], structs[i]));
    }
    lemma_apply(k, FN_UNION@, ids);
    assert(g.extended_by(c));
    assert(g.extended_by(h));
    lemma_grounded_empty(k);
    lemma_grounded_empty(g);
    lemma_not_struct_union();
    typing_is_stable(g, h, tu, v);
    lemma_same(g, h, Map::empty(), tu);
    lemma_same_node(g, h, field);
    lemma_same_value(g, h, v);
    assert forall|i: int| 0 <= i < ids.len() implies value_has(h, #[trigger] parts(h, r)[i], v)
        == variant_has(h, field, tags[i], structs[i], v) by {
        let s = structs[i];
        assert(is_expanded(k, ids[i], field, tags[i], s));
        lemma_expanded_grows(k, h, ids[i], field, tags[i], s);
        lemma_same(g, h, Map::empty(), s);
        lemma_smaller(g, s);
        assert forall|m: int| 0 <= m < struct_fields(g, s).len() implies h.node(
            (#[trigger] struct_fields(g, s)[m]).0,
        ) == g.node(struct_fields(g, s)[m].0) by {
            lemma_same_node(g, h, struct_fields(g, s)[m].0);
        }
        assert(declared(h, struct_fields(g, s)) =~= declared(g, struct_fields(g, s)));
        lemma_one(h, ids[i], field, tags[i], s, v);
    }
    if value_has(h, r, v) {
        let i = choose|i: int| 0 <= i < parts(h, r).len() && value_has(h, #[trigger] parts(h, r)[i], v);
        assert(variant_has(h, field, tags[i], structs[i], v));
    }
    if value_has(h, tu, v) {
        let i = choose|i: int|
            0 <= i < structs.len() && variant_has(h, field, tags[i], #[trigger] structs[i], v);
        assert(value_has(h, parts(h, r)[i], v));
    }
}

proof fn lemma_not_struct_union()
    ensures
        FN_UNION@ != FN_SINGLETON@,
        FN_TAGGED_UNION@ != FN_SINGLETON@,
        FN_TAGGED_UNION@ != FN_UNION@,
{
    reveal_strlit("fn:Singleton");
    reveal_strlit("fn:Union");
    reveal_strlit("fn:TaggedUnion");
    assert("fn:Singleton"@.len() == 12);
    assert("fn:Union"@.len() == 8);
    assert("fn:TaggedUnion"@.len() == 14);
}

/// Expanding takes nothing out of the graph.
proof fn lemma_expanded_size(
    g: Graph,
    field: InstId,
    tags: Seq<InstId>,
    structs: Seq<InstId>,
    n: nat,
)
    ensures
        g.nodes.len() <= expanded(g, field, tags, structs, n).0.nodes.len(),
        g.names.len() <= expanded(g, field, tags, structs, n).0.names.len(),
    decreases n,
{
    if n > 0 {
        lemma_expanded_size(g, field, tags, structs, (n - 1) as nat);
    }
}

} // verus!
