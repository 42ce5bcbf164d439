//! What is inferred for a term holds of its values: the value of a call has the type that is
//! inferred for the call, if the arguments have theirs.
use vstd::prelude::*;

use crate::conform::{conforms, lies_under, parts};
use crate::has_type::{
    a_struct_has_its_fields, all_have, declared, entries, evens, fields_hold, last_at, lemma_smaller,
    list_elems, map_entries, odds, position, struct_entries, value_has,
};
use crate::infer::{arg_bound, arg_bounds, call_bound, pair_bounds, struct_call_bounds, Ranges};
use crate::ir::{ids_below, Graph, InstId, NameId, Node};
use crate::name_trie::{a_prefix_is_the_longest, joined, longest, prefix_of, segments};
use crate::type_bounds::{flatten, lemma_grounded_empty, reduced, replaced, upper};
use crate::type_expr::{
    alternatives, fields_below, fields_from, first_field, is_fn, is_name, name_node, struct_fields, FN_LIST, FN_MAP,
    FN_PAIR, FN_SINGLETON, FN_STRUCT, FN_TAGGED_UNION, FN_TUPLE, FN_UNION,
};
use crate::type_laws::{lemma_apply, lemma_name, lemma_same, lemma_upper, small};

verus! {

/// Every value of the type `a` has the type `b`.
pub open spec fn includes(g: Graph, a: InstId, b: InstId) -> bool {
    forall|v: InstId| #[trigger] value_has(g, a, v) ==> value_has(g, b, v)
}

/// Where one of the types conforms to another, the values of the one have the other.
pub open spec fn sound_among(g: Graph, later: Graph, types: Seq<InstId>) -> bool {
    forall|a: InstId, b: InstId|
        types.contains(a) && types.contains(b) && #[trigger] conforms(g, Map::empty(), a, b) ==> includes(
            later,
            a,
            b,
        )
}

/// The value is a constant.
pub open spec fn constant(g: Graph, v: InstId) -> bool {
    match g.node(v) {
        Node::Number(_) => true,
        Node::Float(_) => true,
        Node::String(_) => true,
        Node::Bool(_) => true,
        Node::Time(_) => true,
        Node::Duration(_) => true,
        Node::Bytes(_) => true,
        Node::Name(_) => true,
        _ => false,
    }
}

/// The values of a type have one of those that are kept.
spec fn taken_in(later: Graph, a: InstId, kept: Seq<InstId>) -> bool {
    exists|m: int| 0 <= m < kept.len() && includes(later, a, #[trigger] kept[m])
}

spec fn drawn_from(kept: Seq<InstId>, types: Seq<InstId>) -> bool {
    forall|j: int| 0 <= j < kept.len() ==> types.contains(#[trigger] kept[j])
}

/// A place that takes a type in stays when more are kept.
proof fn lemma_taken_push(later: Graph, a: InstId, kept: Seq<InstId>, t: InstId)
    requires
        taken_in(later, a, kept),
    ensures
        taken_in(later, a, kept.push(t)),
{
    let m = choose|m: int| 0 <= m < kept.len() && includes(later, a, #[trigger] kept[m]);
    assert(kept.push(t)[m] == kept[m]);
}

/// What stands in place of kept types takes them in.
proof fn lemma_replaced(
    g: Graph,
    later: Graph,
    types: Seq<InstId>,
    kept: Seq<InstId>,
    t: InstId,
    n: nat,
)
    requires
        sound_among(g, later, types),
        drawn_from(kept, types),
        types.contains(t),
        n <= kept.len(),
    ensures
        drawn_from(replaced(g, Map::empty(), kept, t, n).0, types),
        replaced(g, Map::empty(), kept, t, n).1 ==> taken_in(
            later,
            t,
            replaced(g, Map::empty(), kept, t, n).0,
        ),
        forall|j: int|
            0 <= j < n ==> taken_in(later, #[trigger] kept[j], replaced(g, Map::empty(), kept, t, n).0)
                || (includes(later, kept[j], t) && replaced(g, Map::empty(), kept, t, n).1),
    decreases n,
{
    if n > 0 {
        lemma_replaced(g, later, types, kept, t, (n - 1) as nat);
        let (some, placed) = replaced(g, Map::empty(), kept, t, (n - 1) as nat);
        let (now, put) = replaced(g, Map::empty(), kept, t, n);
        let last = kept[n - 1];
        assert(types.contains(last));
        if !conforms(g, Map::empty(), last, t) {
            assert(now == some.push(last));
            assert(now[some.len() as int] == last);
            assert(includes(later, last, now[some.len() as int]));
            if placed {
                lemma_taken_push(later, t, some, last);
            }
            assert forall|j: int| 0 <= j < n implies taken_in(later, #[trigger] kept[j], now) || (includes(
                later,
                kept[j],
                t,
            ) && put) by {
                if j < n - 1 && taken_in(later, kept[j], some) {
                    lemma_taken_push(later, kept[j], some, last);
                }
            }
        } else if !placed {
            assert(now == some.push(t));
            assert(now[some.len() as int] == t);
            assert(includes(later, t, now[some.len() as int]));
            assert forall|j: int| 0 <= j < n implies taken_in(later, #[trigger] kept[j], now) || (includes(
                later,
                kept[j],
                t,
            ) && put) by {
                if j < n - 1 && taken_in(later, kept[j], some) {
                    lemma_taken_push(later, kept[j], some, t);
                }
            }
        }
    }
}

/// What is included in a type that is taken in is taken in.
proof fn lemma_taken_through(later: Graph, a: InstId, b: InstId, kept: Seq<InstId>)
    requires
        includes(later, a, b),
        taken_in(later, b, kept),
    ensures
        taken_in(later, a, kept),
{
    let m = choose|m: int| 0 <= m < kept.len() && includes(later, b, #[trigger] kept[m]);
    assert(includes(later, a, kept[m]));
}

/// Of types that are reduced, each is taken in.
proof fn lemma_reduced(g: Graph, later: Graph, types: Seq<InstId>, n: nat)
    requires
        sound_among(g, later, types),
        n <= types.len(),
    ensures
        drawn_from(reduced(g, Map::empty(), types, n), types),
        forall|i: int|
            0 <= i < n ==> taken_in(later, #[trigger] types[i], reduced(g, Map::empty(), types, n)),
    decreases n,
{
    if n > 0 {
        lemma_reduced(g, later, types, (n - 1) as nat);
        let kept = reduced(g, Map::empty(), types, (n - 1) as nat);
        let t = types[n - 1];
        let now = reduced(g, Map::empty(), types, n);
        assert(types.contains(t));
        if exists|i: int| 0 <= i < kept.len() && conforms(g, Map::empty(), t, #[trigger] kept[i]) {
            let i = choose|i: int| 0 <= i < kept.len() && conforms(g, Map::empty(), t, #[trigger] kept[i]);
            assert(types.contains(kept[i]));
            assert(includes(later, t, kept[i]));
        } else {
            lemma_replaced(g, later, types, kept, t, kept.len());
            let (some, placed) = replaced(g, Map::empty(), kept, t, kept.len());
            if !placed {
                assert(now == some.push(t));
                assert(now[some.len() as int] == t);
                assert(includes(later, t, now[some.len() as int]));
            }
            assert(taken_in(later, t, now));
            assert forall|j: int| 0 <= j < kept.len() implies taken_in(later, #[trigger] kept[j], now) by {
                if taken_in(later, kept[j], some) {
                    if !placed {
                        lemma_taken_push(later, kept[j], some, t);
                    }
                } else {
                    lemma_taken_through(later, kept[j], t, now);
                }
            }
            assert forall|i: int| 0 <= i < n implies taken_in(later, #[trigger] types[i], now) by {
                if i < n - 1 {
                    let m = choose|m: int| 0 <= m < kept.len() && includes(later, types[i], #[trigger] kept[m]);
                    lemma_taken_through(later, types[i], kept[m], now);
                }
            }
        }
    }
}

/// The alternatives of every type are among all.
proof fn lemma_flat(g: Graph, types: Seq<InstId>, n: nat, i: int, k: int)
    requires
        0 <= i < n <= types.len(),
        0 <= k < alternatives(g, types[i]).len(),
    ensures
        flatten(g, types, n).contains(alternatives(g, types[i])[k]),
    decreases n,
{
    let before = flatten(g, types, (n - 1) as nat);
    let last = alternatives(g, types[n - 1]);
    let all = flatten(g, types, n);
    if i < n - 1 {
        lemma_flat(g, types, (n - 1) as nat, i, k);
        let j = before.index_of(alternatives(g, types[i])[k]);
        assert(all[j] == alternatives(g, types[i])[k]);
    } else {
        assert(all[before.len() + k] == last[k]);
    }
}

/// The alternatives of types stand in the graph.
proof fn lemma_flat_below(g: Graph, types: Seq<InstId>, n: nat)
    requires
        g.wf(),
        ids_below(types, g.nodes.len()),
        n <= types.len(),
    ensures
        ids_below(flatten(g, types, n), g.nodes.len()),
    decreases n,
{
    if n > 0 {
        lemma_flat_below(g, types, (n - 1) as nat);
        let t = types[n - 1];
        assert(g.nodes[t.0 as int].fits(t.0 as nat, g.names.len(), g.strings.len()));
    }
}

proof fn lemma_kinds()
    ensures
        FN_UNION@ != FN_SINGLETON@,
        FN_LIST@ != FN_SINGLETON@ && FN_LIST@ != FN_UNION@ && FN_LIST@ != FN_TAGGED_UNION@,
        FN_MAP@ != FN_SINGLETON@ && FN_MAP@ != FN_UNION@ && FN_MAP@ != FN_TAGGED_UNION@ && FN_MAP@
            != FN_LIST@,
        FN_STRUCT@ != FN_SINGLETON@ && FN_STRUCT@ != FN_UNION@ && FN_STRUCT@ != FN_TAGGED_UNION@
            && FN_STRUCT@ != FN_LIST@ && FN_STRUCT@ != FN_MAP@ && FN_STRUCT@ != FN_PAIR@,
{
    reveal_strlit("fn:Struct");
    reveal_strlit("fn:Singleton");
    reveal_strlit("fn:Union");
    reveal_strlit("fn:TaggedUnion");
    reveal_strlit("fn:List");
    reveal_strlit("fn:Map");
    reveal_strlit("fn:Pair");
    assert(FN_STRUCT@.len() == 9 && FN_SINGLETON@.len() == 12 && FN_UNION@.len() == 8);
    assert(FN_TAGGED_UNION@.len() == 14 && FN_LIST@.len() == 7 && FN_MAP@.len() == 6 && FN_PAIR@.len() == 7);
}

/// A value of one of the types has the upper bound of the types, where conformance among the
/// alternatives takes values along. Where `/any` is among the types, this is of constants.
pub proof fn an_upper_bound_takes_values_in(g: Graph, later: Graph, types: Seq<InstId>, i: int, v: InstId)
    requires
        g.wf(),
        later.wf(),
        ids_below(types, g.nodes.len()),
        small(upper(g, Map::empty(), types).0),
        upper(g, Map::empty(), types).0.extended_by(later),
        sound_among(g, later, flatten(g, types, types.len())),
        0 <= i < types.len(),
        value_has(later, types[i], v),
        (exists|j: int| 0 <= j < types.len() && is_name(g, #[trigger] types[j], "/any"@)) ==> constant(
            later,
            v,
        ),
    ensures
        value_has(later, upper(g, Map::empty(), types).1, v),
{
    let (h, u) = upper(g, Map::empty(), types);
    let flat = flatten(g, types, types.len());
    lemma_grounded_empty(g);
    lemma_grounded_empty(h);
    lemma_upper(g, Map::empty(), types);
    lemma_same(h, later, Map::empty(), u);
    if exists|j: int| 0 <= j < types.len() && is_name(g, #[trigger] types[j], "/any"@) {
        lemma_name(g, "/any"@);
    } else {
        lemma_later(g, h, later);
        let a = lemma_alternative(g, later, types, i, v);
        lemma_kept(g, later, flat, a, v);
        let kept = reduced(g, Map::empty(), flat, flat.len());
        let m = choose|m: int| 0 <= m < kept.len() && value_has(later, #[trigger] kept[m], v);
        if kept.len() != 1 {
            lemma_flat_below(g, types, types.len());
            lemma_apply_below(g, flat, kept);
            lemma_apply(g, FN_UNION@, kept);
            lemma_in_union(later, u, m, v);
        }
    }
}

/// A value of an alternative has the union.
proof fn lemma_in_union(g: Graph, u: InstId, m: int, v: InstId)
    requires
        g.wf(),
        g.has(u),
        is_fn(g, u, FN_UNION@),
        0 <= m < parts(g, u).len(),
        value_has(g, parts(g, u)[m], v),
    ensures
        value_has(g, u, v),
{
    lemma_kinds();
}

/// A value has one of the alternatives of its type.
proof fn lemma_alternative(g: Graph, later: Graph, types: Seq<InstId>, i: int, v: InstId) -> (a: InstId)
    requires
        g.wf(),
        later.wf(),
        g.extended_by(later),
        ids_below(types, g.nodes.len()),
        0 <= i < types.len(),
        value_has(later, types[i], v),
    ensures
        flatten(g, types, types.len()).contains(a),
        value_has(later, a, v),
{
    lemma_kinds();
    lemma_grounded_empty(g);
    lemma_same(g, later, Map::empty(), types[i]);
    let alts = alternatives(g, types[i]);
    if is_fn(g, types[i], FN_UNION@) {
        let k = choose|k: int|
            0 <= k < parts(later, types[i]).len() && value_has(
                later,
                #[trigger] parts(later, types[i])[k],
                v,
            );
        lemma_flat(g, types, types.len(), i, k);
        alts[k]
    } else {
        lemma_flat(g, types, types.len(), i, 0);
        alts[0]
    }
}

/// A value of a type has one of those that are kept.
proof fn lemma_kept(g: Graph, later: Graph, flat: Seq<InstId>, a: InstId, v: InstId)
    requires
        sound_among(g, later, flat),
        flat.contains(a),
        value_has(later, a, v),
    ensures
        drawn_from(reduced(g, Map::empty(), flat, flat.len()), flat),
        exists|m: int|
            0 <= m < reduced(g, Map::empty(), flat, flat.len()).len() && value_has(
                later,
                #[trigger] reduced(g, Map::empty(), flat, flat.len())[m],
                v,
            ),
{
    let kept = reduced(g, Map::empty(), flat, flat.len());
    lemma_reduced(g, later, flat, flat.len());
    let n = flat.index_of(a);
    assert(flat[n] == a);
    assert(taken_in(later, flat[n], kept));
    let m = choose|m: int| 0 <= m < kept.len() && includes(later, a, #[trigger] kept[m]);
    assert(value_has(later, kept[m], v));
}

/// What is kept of types stands in the graph.
proof fn lemma_apply_below(g: Graph, flat: Seq<InstId>, kept: Seq<InstId>)
    requires
        drawn_from(kept, flat),
        ids_below(flat, g.nodes.len()),
    ensures
        ids_below(kept, g.nodes.len()),
{
    assert forall|j: int| 0 <= j < kept.len() implies (#[trigger] kept[j]).0 < g.nodes.len() by {
        assert(flat.contains(kept[j]));
    }
}

/// Growth is transitive.
proof fn lemma_later(a: Graph, b: Graph, c: Graph)
    requires
        a.extended_by(b),
        b.extended_by(c),
    ensures
        a.extended_by(c),
{
    assert(a.nodes =~= c.nodes.subrange(0, a.nodes.len() as int));
    assert(a.names =~= c.names.subrange(0, a.names.len() as int));
    assert(a.strings =~= c.strings.subrange(0, a.strings.len() as int));
}

/// Functions that compute an integer.
pub open spec fn computes_number(f: Seq<char>) -> bool {
    ||| f == "fn:plus"@
    ||| f == "fn:minus"@
    ||| f == "fn:mult"@
    ||| f == "fn:div"@
    ||| f == "fn:count"@
    ||| f == "fn:sum"@
    ||| f == "fn:max"@
    ||| f == "fn:min"@
    ||| f == "fn:list:len"@
    ||| f == "fn:len"@
    ||| f == "fn:map:len"@
    ||| f == "fn:struct:len"@
}

/// Functions that compute a floating-point number.
pub open spec fn computes_float(f: Seq<char>) -> bool {
    f == "fn:float_plus"@ || f == "fn:float_mult"@ || f == "fn:float_div"@ || f == "fn:sqrt"@
}

/// Functions that compute a text.
pub open spec fn computes_string(f: Seq<char>) -> bool {
    f == "fn:string:concat"@ || f == "fn:string:replace"@
}

/// No two kinds of functions share a name.
proof fn lemma_functions(f: Seq<char>)
    ensures
        computes_number(f) ==> !computes_float(f) && !computes_string(f),
        computes_float(f) ==> !computes_string(f),
        computes_number(f) || computes_float(f) || computes_string(f) ==>
            f != "fn:list"@
            && f != "fn:map"@
            && f != "fn:struct"@
            && f != "fn:tuple"@
            && f != "fn:struct_get"@
            && f != "fn:list:get"@
            && f != "fn:list:append"@
            && f != "fn:collect"@
            && f != "fn:collect_distinct"@,
        f == "fn:list"@ ==> !computes_number(f) && !computes_float(f) && !computes_string(f)
            && f != "fn:map"@
            && f != "fn:struct"@
            && f != "fn:tuple"@
            && f != "fn:struct_get"@
            && f != "fn:list:get"@
            && f != "fn:list:append"@
            && f != "fn:collect"@
            && f != "fn:collect_distinct"@,
        f == "fn:map"@ ==> !computes_number(f) && !computes_float(f) && !computes_string(f)
            && f != "fn:list"@
            && f != "fn:struct"@
            && f != "fn:tuple"@
            && f != "fn:struct_get"@
            && f != "fn:list:get"@
            && f != "fn:list:append"@
            && f != "fn:collect"@
            && f != "fn:collect_distinct"@,
        f == "fn:struct"@ ==> !computes_number(f) && !computes_float(f) && !computes_string(f)
            && f != "fn:list"@
            && f != "fn:map"@
            && f != "fn:tuple"@
            && f != "fn:struct_get"@
            && f != "fn:list:get"@
            && f != "fn:list:append"@
            && f != "fn:collect"@
            && f != "fn:collect_distinct"@,
        f == "fn:tuple"@ ==> !computes_number(f) && !computes_float(f) && !computes_string(f)
            && f != "fn:list"@
            && f != "fn:map"@
            && f != "fn:struct"@
            && f != "fn:struct_get"@
            && f != "fn:list:get"@
            && f != "fn:list:append"@
            && f != "fn:collect"@
            && f != "fn:collect_distinct"@,
        f == "fn:struct_get"@ ==> !computes_number(f) && !computes_float(f) && !computes_string(f)
            && f != "fn:list"@
            && f != "fn:map"@
            && f != "fn:struct"@
            && f != "fn:tuple"@
            && f != "fn:list:get"@
            && f != "fn:list:append"@
            && f != "fn:collect"@
            && f != "fn:collect_distinct"@,
        f == "fn:list:get"@ ==> !computes_number(f) && !computes_float(f) && !computes_string(f)
            && f != "fn:list"@
            && f != "fn:map"@
            && f != "fn:struct"@
            && f != "fn:tuple"@
            && f != "fn:struct_get"@
            && f != "fn:list:append"@
            && f != "fn:collect"@
            && f != "fn:collect_distinct"@,
        f == "fn:list:append"@ ==> !computes_number(f) && !computes_float(f) && !computes_string(f)
            && f != "fn:list"@
            && f != "fn:map"@
            && f != "fn:struct"@
            && f != "fn:tuple"@
            && f != "fn:struct_get"@
            && f != "fn:list:get"@
            && f != "fn:collect"@
            && f != "fn:collect_distinct"@,
        f == "fn:collect"@ ==> !computes_number(f) && !computes_float(f) && !computes_string(f)
            && f != "fn:list"@
            && f != "fn:map"@
            && f != "fn:struct"@
            && f != "fn:tuple"@
            && f != "fn:struct_get"@
            && f != "fn:list:get"@
            && f != "fn:list:append"@
            && f != "fn:collect_distinct"@,
        f == "fn:collect_distinct"@ ==> !computes_number(f) && !computes_float(f) && !computes_string(f)
            && f != "fn:list"@
            && f != "fn:map"@
            && f != "fn:struct"@
            && f != "fn:tuple"@
            && f != "fn:struct_get"@
            && f != "fn:list:get"@
            && f != "fn:list:append"@
            && f != "fn:collect"@,
{
    reveal_strlit("fn:list");
    reveal_strlit("fn:map");
    reveal_strlit("fn:struct");
    reveal_strlit("fn:tuple");
    reveal_strlit("fn:struct_get");
    reveal_strlit("fn:list:get");
    reveal_strlit("fn:list:append");
    reveal_strlit("fn:collect");
    reveal_strlit("fn:collect_distinct");
    reveal_strlit("fn:plus");
    reveal_strlit("fn:minus");
    reveal_strlit("fn:mult");
    reveal_strlit("fn:div");
    reveal_strlit("fn:count");
    reveal_strlit("fn:sum");
    reveal_strlit("fn:max");
    reveal_strlit("fn:min");
    reveal_strlit("fn:list:len");
    reveal_strlit("fn:len");
    reveal_strlit("fn:map:len");
    reveal_strlit("fn:struct:len");
    reveal_strlit("fn:float_plus");
    reveal_strlit("fn:float_mult");
    reveal_strlit("fn:float_div");
    reveal_strlit("fn:sqrt");
    reveal_strlit("fn:string:concat");
    reveal_strlit("fn:string:replace");
    assert("fn:list"@.len() == 7);
    assert("fn:map"@.len() == 6);
    assert("fn:struct"@.len() == 9);
    assert("fn:tuple"@.len() == 8);
    assert("fn:struct_get"@.len() == 13);
    assert("fn:list:get"@.len() == 11);
    assert("fn:list:append"@.len() == 14);
    assert("fn:collect"@.len() == 10);
    assert("fn:collect_distinct"@.len() == 19);
    assert("fn:plus"@.len() == 7);
    assert("fn:minus"@.len() == 8);
    assert("fn:mult"@.len() == 7);
    assert("fn:div"@.len() == 6);
    assert("fn:count"@.len() == 8);
    assert("fn:sum"@.len() == 6);
    assert("fn:max"@.len() == 6);
    assert("fn:min"@.len() == 6);
    assert("fn:list:len"@.len() == 11);
    assert("fn:len"@.len() == 6);
    assert("fn:map:len"@.len() == 10);
    assert("fn:struct:len"@.len() == 13);
    assert("fn:float_plus"@.len() == 13);
    assert("fn:float_mult"@.len() == 13);
    assert("fn:float_div"@.len() == 12);
    assert("fn:sqrt"@.len() == 7);
    assert("fn:string:concat"@.len() == 16);
    assert("fn:string:replace"@.len() == 17);
    assert("fn:float_plus"@[3] == 'f' && "fn:struct:len"@[3] == 's');
    assert("fn:float_mult"@[3] == 'f' && "fn:struct:len"@[3] == 's');
    assert("fn:sqrt"@[3] == 's' && "fn:plus"@[3] == 'p');
    assert("fn:sqrt"@[3] == 's' && "fn:mult"@[3] == 'm');
    assert("fn:list"@[3] == 'l' && "fn:plus"@[3] == 'p');
    assert("fn:list"@[3] == 'l' && "fn:mult"@[3] == 'm');
    assert("fn:list"@[3] == 'l' && "fn:sqrt"@[3] == 's');
    assert("fn:map"@[3] == 'm' && "fn:div"@[3] == 'd');
    assert("fn:map"@[3] == 'm' && "fn:sum"@[3] == 's');
    assert("fn:map"@[5] == 'p' && "fn:max"@[5] == 'x');
    assert("fn:map"@[4] == 'a' && "fn:min"@[4] == 'i');
    assert("fn:map"@[3] == 'm' && "fn:len"@[3] == 'l');
    assert("fn:tuple"@[3] == 't' && "fn:minus"@[3] == 'm');
    assert("fn:tuple"@[3] == 't' && "fn:count"@[3] == 'c');
    assert("fn:struct_get"@[9] == '_' && "fn:struct:len"@[9] == ':');
    assert("fn:struct_get"@[3] == 's' && "fn:float_plus"@[3] == 'f');
    assert("fn:struct_get"@[3] == 's' && "fn:float_mult"@[3] == 'f');
    assert("fn:list:get"@[8] == 'g' && "fn:list:len"@[8] == 'l');
    assert("fn:collect"@[3] == 'c' && "fn:map:len"@[3] == 'm');
}

/// A value of a list type: its elements have the type of elements, and a list of values of that
/// type has the list type.
proof fn lemma_list(g: Graph, t: InstId, elem: InstId, v: InstId)
    requires
        g.wf(),
        g.has(t),
        is_fn(g, t, FN_LIST@),
        parts(g, t) == seq![elem],
    ensures
        value_has(g, t, v) <==> (list_elems(g, v) matches Some(elems) && forall|k: int|
            0 <= k < elems.len() ==> value_has(g, elem, #[trigger] elems[k])),
{
    lemma_kinds();
    assert(g.nodes[t.0 as int].fits(t.0 as nat, g.names.len(), g.strings.len()));
    assert(parts(g, t)[0] == elem);
    if let Some(elems) = list_elems(g, v) {
        assert(all_have(g, elem, elems) <==> forall|k: int|
            0 <= k < elems.len() ==> value_has(g, elem, #[trigger] elems[k]));
    }
}

/// A value of a map type: its keys and values have the types of keys and values.
proof fn lemma_map(g: Graph, t: InstId, key: InstId, value: InstId, v: InstId)
    requires
        g.wf(),
        g.has(t),
        is_fn(g, t, FN_MAP@),
        parts(g, t) == seq![key, value],
    ensures
        value_has(g, t, v) <==> (map_entries(g, v) matches Some((ks, vs)) && (forall|k: int|
            0 <= k < ks.len() ==> value_has(g, key, #[trigger] ks[k])) && (forall|k: int|
            0 <= k < vs.len() ==> value_has(g, value, #[trigger] vs[k]))),
{
    lemma_kinds();
    assert(g.nodes[t.0 as int].fits(t.0 as nat, g.names.len(), g.strings.len()));
    assert(parts(g, t)[0] == key && parts(g, t)[1] == value);
    if let Some((ks, vs)) = map_entries(g, v) {
        assert(all_have(g, key, ks) <==> forall|k: int|
            0 <= k < ks.len() ==> value_has(g, key, #[trigger] ks[k]));
        assert(all_have(g, value, vs) <==> forall|k: int|
            0 <= k < vs.len() ==> value_has(g, value, #[trigger] vs[k]));
    }
}

/// Where a list is inferred to hold `elem`, this is what is inferred for an element that is taken
/// from it, and every element of a value of the list type has it. For anything that is not
/// inferred to be a list, `/any` is.
pub proof fn what_is_taken_from_a_list_has_its_inferred_type(
    base: Graph,
    g: Graph,
    paths: Set<Seq<Seq<char>>>,
    st: Ranges,
    list: InstId,
    place: InstId,
    limit: nat,
    v: InstId,
)
    requires
        base.wf(),
        limit <= base.nodes.len(),
        list.0 < limit,
        place.0 < limit,
        arg_bound(base, g, paths, st, list).0.wf(),
        arg_bound(base, g, paths, st, list).0.has(arg_bound(base, g, paths, st, list).1),
        small(call_bound(base, g, paths, st, "fn:list:get"@, seq![list, place], limit).0),
    ensures
        ({
            let (h, t) = arg_bound(base, g, paths, st, list);
            let (k, r) = call_bound(base, g, paths, st, "fn:list:get"@, seq![list, place], limit);
            if is_fn(h, t, FN_LIST@) && parts(h, t).len() == 1 {
                &&& k == h
                &&& r == parts(h, t)[0]
                &&& value_has(h, t, v) ==> (list_elems(h, v) matches Some(elems) && forall|i: int|
                    0 <= i < elems.len() ==> value_has(k, r, #[trigger] elems[i]))
            } else {
                is_name(k, r, "/any"@)
            }
        }),
{
    lemma_functions("fn:list:get"@);
    let args = seq![list, place];
    assert(ids_below(args, limit));
    let (h, t) = arg_bound(base, g, paths, st, list);
    assert(args[0] == list);
    if is_fn(h, t, FN_LIST@) && parts(h, t).len() == 1 {
        assert(parts(h, t) =~= seq![parts(h, t)[0]]);
        lemma_list(h, t, parts(h, t)[0], v);
    } else {
        lemma_name(h, "/any"@);
    }
}

/// What arithmetic and text functions compute has the type that is inferred for them, and what
/// has that type is a value that they can compute.
pub proof fn what_is_computed_has_its_inferred_type(
    base: Graph,
    g: Graph,
    paths: Set<Seq<Seq<char>>>,
    st: Ranges,
    f: Seq<char>,
    args: Seq<InstId>,
    limit: nat,
    v: InstId,
)
    requires
        base.wf(),
        g.wf(),
        limit <= base.nodes.len(),
        ids_below(args, limit),
        small(call_bound(base, g, paths, st, f, args, limit).0),
    ensures
        ({
            let (k, r) = call_bound(base, g, paths, st, f, args, limit);
            &&& computes_number(f) ==> (value_has(k, r, v) <==> k.node(v) is Number || under(k, v, "/number"@))
            &&& computes_float(f) ==> (value_has(k, r, v) <==> k.node(v) is Float || under(k, v, "/float64"@))
            &&& computes_string(f) ==> (value_has(k, r, v) <==> k.node(v) is String || under(
                k,
                v,
                "/string"@,
            ))
        }),
{
    lemma_functions(f);
    lemma_bases();
    if computes_number(f) {
        lemma_name(g, "/number"@);
    } else if computes_float(f) {
        lemma_name(g, "/float64"@);
    } else if computes_string(f) {
        lemma_name(g, "/string"@);
    }
}

/// The value is a name at or below another.
pub open spec fn under(g: Graph, v: InstId, path: Seq<char>) -> bool {
    g.node(v) matches Node::Name(n) && lies_under(g.name(n), path)
}

proof fn lemma_bases()
    ensures
        "/number"@ != "/float64"@ && "/number"@ != "/string"@ && "/float64"@ != "/string"@,
        "/number"@ != "/any"@ && "/float64"@ != "/any"@ && "/string"@ != "/any"@,
        "/number"@ != "/name"@ && "/float64"@ != "/name"@ && "/string"@ != "/name"@,
        "/number"@ != "/bool"@ && "/float64"@ != "/bool"@ && "/string"@ != "/bool"@,
        "/number"@ != "/time"@ && "/float64"@ != "/time"@ && "/string"@ != "/time"@,
        "/number"@ != "/duration"@ && "/float64"@ != "/duration"@ && "/string"@ != "/duration"@,
        "/number"@ != "/bytes"@ && "/float64"@ != "/bytes"@ && "/string"@ != "/bytes"@,
{
    reveal_strlit("/number");
    reveal_strlit("/float64");
    reveal_strlit("/string");
    reveal_strlit("/any");
    reveal_strlit("/name");
    reveal_strlit("/bool");
    reveal_strlit("/time");
    reveal_strlit("/duration");
    reveal_strlit("/bytes");
    assert("/number"@.len() == 7 && "/float64"@.len() == 8 && "/string"@.len() == 7);
    assert("/any"@.len() == 4 && "/name"@.len() == 5 && "/bool"@.len() == 5 && "/time"@.len() == 5);
    assert("/duration"@.len() == 9 && "/bytes"@.len() == 6);
    assert("/number"@[1] == 'n' && "/string"@[1] == 's');
}

/// A constant has the type that is inferred for it.
pub proof fn a_constant_has_its_inferred_type(
    base: Graph,
    g: Graph,
    paths: Set<Seq<Seq<char>>>,
    st: Ranges,
    c: InstId,
)
    requires
        base.wf(),
        g.wf(),
        base.extended_by(g),
        base.has(c),
        constant(base, c),
        !(base.node(c) is Name),
        small(arg_bound(base, g, paths, st, c).0),
    ensures
        value_has(arg_bound(base, g, paths, st, c).0, arg_bound(base, g, paths, st, c).1, c),
{
    lemma_bases();
    let (k, t) = arg_bound(base, g, paths, st, c);
    let text = match base.node(c) {
        Node::Number(_) => "/number"@,
        Node::Float(_) => "/float64"@,
        Node::String(_) => "/string"@,
        Node::Bool(_) => "/bool"@,
        Node::Time(_) => "/time"@,
        Node::Duration(_) => "/duration"@,
        _ => "/bytes"@,
    };
    lemma_name(g, text);
    lemma_later(base, g, k);
    lemma_grounded_empty(base);
    lemma_same(base, k, Map::empty(), c);
}

/// A list of terms has the type that is inferred for it, if the terms have theirs and conformance
/// among these takes values along. Where `/any` is inferred for a term, this is of constants.
pub proof fn a_list_has_its_inferred_type(
    base: Graph,
    g: Graph,
    paths: Set<Seq<Seq<char>>>,
    st: Ranges,
    args: Seq<InstId>,
    limit: nat,
    vs: Seq<InstId>,
    v: InstId,
)
    requires
        base.wf(),
        g.wf(),
        limit <= base.nodes.len(),
        ids_below(args, limit),
        small(call_bound(base, g, paths, st, "fn:list"@, args, limit).0),
        ({
            let (h, types) = arg_bounds(base, g, paths, st, args, args.len(), limit);
            let k = call_bound(base, g, paths, st, "fn:list"@, args, limit).0;
            &&& h.wf()
            &&& types.len() == args.len()
            &&& ids_below(types, h.nodes.len())
            &&& sound_among(h, k, flatten(h, types, types.len()))
            &&& list_elems(k, v) == Some(vs)
            &&& vs.len() == args.len()
            &&& forall|i: int|
                0 <= i < vs.len() ==> value_has(k, types[i], #[trigger] vs[i]) && (constant(k, vs[i])
                    || !some_any(h, types))
        }),
    ensures
        value_has(
            call_bound(base, g, paths, st, "fn:list"@, args, limit).0,
            call_bound(base, g, paths, st, "fn:list"@, args, limit).1,
            v,
        ),
{
    lemma_functions("fn:list"@);
    let (k, r) = call_bound(base, g, paths, st, "fn:list"@, args, limit);
    if args.len() == 0 {
        let (b, bot) = name_node(g, "/bot"@);
        lemma_name(g, "/bot"@);
        lemma_apply(b, FN_LIST@, seq![bot]);
        lemma_list(k, r, bot, v);
    } else {
        let (h, types) = arg_bounds(base, g, paths, st, args, args.len(), limit);
        let (m, u) = upper(h, Map::empty(), types);
        lemma_grounded_empty(h);
        lemma_upper(h, Map::empty(), types);
        lemma_apply(m, FN_LIST@, seq![u]);
        lemma_list(k, r, u, v);
        assert forall|i: int| 0 <= i < vs.len() implies value_has(k, u, #[trigger] vs[i]) by {
            an_upper_bound_takes_values_in(h, k, types, i, vs[i]);
        }
    }
}

/// Whether one of the types is `/any`.
pub open spec fn some_any(g: Graph, types: Seq<InstId>) -> bool {
    exists|j: int| 0 <= j < types.len() && is_name(g, #[trigger] types[j], "/any"@)
}

/// A list with one more element has the type that is inferred for it, if the list and the element
/// have theirs and conformance among the two types of elements takes values along. Where one of
/// these is `/any`, this is of constants.
pub proof fn a_longer_list_has_its_inferred_type(
    base: Graph,
    g: Graph,
    paths: Set<Seq<Seq<char>>>,
    st: Ranges,
    list: InstId,
    item: InstId,
    limit: nat,
    was: Seq<InstId>,
    x: InstId,
    v: InstId,
)
    requires
        base.wf(),
        limit <= base.nodes.len(),
        list.0 < limit,
        item.0 < limit,
        small(call_bound(base, g, paths, st, "fn:list:append"@, seq![list, item], limit).0),
        ({
            let (h, t) = arg_bound(base, g, paths, st, list);
            let (m, new) = arg_bound(base, h, paths, st, item);
            let k = call_bound(base, g, paths, st, "fn:list:append"@, seq![list, item], limit).0;
            &&& h.wf()
            &&& m.wf()
            &&& h.extended_by(m)
            &&& h.has(t)
            &&& m.has(new)
            &&& is_fn(h, t, FN_LIST@)
            &&& parts(h, t).len() == 1
            &&& sound_among(m, k, flatten(m, seq![parts(h, t)[0], new], 2))
            &&& forall|i: int|
                0 <= i < was.len() ==> value_has(k, parts(h, t)[0], #[trigger] was[i]) && (constant(
                    k,
                    was[i],
                ) || !some_any(m, seq![parts(h, t)[0], new]))
            &&& value_has(k, new, x)
            &&& constant(k, x) || !some_any(m, seq![parts(h, t)[0], new])
            &&& list_elems(k, v) == Some(was.push(x))
        }),
    ensures
        value_has(
            call_bound(base, g, paths, st, "fn:list:append"@, seq![list, item], limit).0,
            call_bound(base, g, paths, st, "fn:list:append"@, seq![list, item], limit).1,
            v,
        ),
{
    lemma_functions("fn:list:append"@);
    let args = seq![list, item];
    assert(ids_below(args, limit));
    assert(args[0] == list && args[1] == item);
    let (k, r) = call_bound(base, g, paths, st, "fn:list:append"@, args, limit);
    let (h, t) = arg_bound(base, g, paths, st, list);
    let (m, new) = arg_bound(base, h, paths, st, item);
    lemma_grounded_empty(h);
    lemma_same(h, m, Map::empty(), t);
    let elem = parts(h, t)[0];
    assert(h.nodes[t.0 as int].fits(t.0 as nat, h.names.len(), h.strings.len()));
    let types = seq![elem, new];
    assert(ids_below(types, m.nodes.len()));
    let (n, u) = upper(m, Map::empty(), types);
    lemma_grounded_empty(m);
    lemma_upper(m, Map::empty(), types);
    lemma_apply(n, FN_LIST@, seq![u]);
    lemma_list(k, r, u, v);
    let all = was.push(x);
    assert forall|i: int| 0 <= i < all.len() implies value_has(k, u, #[trigger] all[i]) by {
        if i < was.len() {
            assert(value_has(k, elem, was[i]));
            assert(types[0] == elem);
            an_upper_bound_takes_values_in(m, k, types, 0, was[i]);
        } else {
            assert(types[1] == new);
            an_upper_bound_takes_values_in(m, k, types, 1, x);
        }
    }
}

/// A list that is collected has the type that is inferred for it, if its elements have the type
/// that is inferred for what is collected.
pub proof fn a_collected_list_has_its_inferred_type(
    base: Graph,
    g: Graph,
    paths: Set<Seq<Seq<char>>>,
    st: Ranges,
    f: Seq<char>,
    arg: InstId,
    limit: nat,
    v: InstId,
)
    requires
        base.wf(),
        limit <= base.nodes.len(),
        arg.0 < limit,
        f == "fn:collect"@ || f == "fn:collect_distinct"@,
        arg_bound(base, g, paths, st, arg).0.wf(),
        arg_bound(base, g, paths, st, arg).0.has(arg_bound(base, g, paths, st, arg).1),
        small(call_bound(base, g, paths, st, f, seq![arg], limit).0),
    ensures
        ({
            let t = arg_bound(base, g, paths, st, arg).1;
            let (k, r) = call_bound(base, g, paths, st, f, seq![arg], limit);
            value_has(k, r, v) <==> (list_elems(k, v) matches Some(elems) && forall|i: int|
                0 <= i < elems.len() ==> value_has(k, t, #[trigger] elems[i]))
        }),
{
    lemma_functions(f);
    let args = seq![arg];
    assert(ids_below(args, limit));
    assert(args[0] == arg);
    let (h, t) = arg_bound(base, g, paths, st, arg);
    let (k, r) = call_bound(base, g, paths, st, f, args, limit);
    lemma_apply(h, FN_LIST@, seq![t]);
    lemma_list(k, r, t, v);
}

/// A map of keys and values in turn has the type that is inferred for it, if the keys and values
/// have theirs and conformance among the types of keys, and among those of values, takes values
/// along. Where `/any` is among them, this is of constants.
pub proof fn a_map_has_its_inferred_type(
    base: Graph,
    g: Graph,
    paths: Set<Seq<Seq<char>>>,
    st: Ranges,
    args: Seq<InstId>,
    limit: nat,
    ks: Seq<InstId>,
    vs: Seq<InstId>,
    v: InstId,
)
    requires
        base.wf(),
        g.wf(),
        limit <= base.nodes.len(),
        ids_below(args, limit),
        args.len() % 2 == 0,
        small(call_bound(base, g, paths, st, "fn:map"@, args, limit).0),
        ({
            let (h, kts, vts) = pair_bounds(base, g, paths, st, args, args.len() / 2, limit);
            let (m, kt) = upper(h, Map::empty(), kts);
            let k = call_bound(base, g, paths, st, "fn:map"@, args, limit).0;
            &&& h.wf()
            &&& ids_below(kts, h.nodes.len())
            &&& ids_below(vts, h.nodes.len())
            &&& kts.len() == ks.len() && vts.len() == vs.len()
            &&& sound_among(h, k, flatten(h, kts, kts.len()))
            &&& sound_among(m, k, flatten(m, vts, vts.len()))
            &&& map_entries(k, v) == Some((ks, vs))
            &&& forall|i: int|
                0 <= i < ks.len() ==> value_has(k, kts[i], #[trigger] ks[i]) && (constant(k, ks[i])
                    || !some_any(h, kts))
            &&& forall|i: int|
                0 <= i < vs.len() ==> value_has(k, vts[i], #[trigger] vs[i]) && (constant(k, vs[i])
                    || !some_any(m, vts))
        }),
    ensures
        value_has(
            call_bound(base, g, paths, st, "fn:map"@, args, limit).0,
            call_bound(base, g, paths, st, "fn:map"@, args, limit).1,
            v,
        ),
{
    lemma_functions("fn:map"@);
    let (k, r) = call_bound(base, g, paths, st, "fn:map"@, args, limit);
    let (h, kts, vts) = pair_bounds(base, g, paths, st, args, args.len() / 2, limit);
    let (m, kt) = upper(h, Map::empty(), kts);
    let (n, vt) = upper(m, Map::empty(), vts);
    lemma_upper_small(m, vts, n);
    lemma_grounded_empty(h);
    lemma_upper(h, Map::empty(), kts);
    lemma_grounded_empty(m);
    lemma_upper(m, Map::empty(), vts);
    lemma_apply(n, FN_MAP@, seq![kt, vt]);
    lemma_map(k, r, kt, vt, v);
    lemma_later(m, n, k);
    assert forall|i: int| 0 <= i < ks.len() implies value_has(k, kt, #[trigger] ks[i]) by {
        an_upper_bound_takes_values_in(h, k, kts, i, ks[i]);
    }
    assert forall|i: int| 0 <= i < vs.len() implies value_has(k, vt, #[trigger] vs[i]) by {
        an_upper_bound_takes_values_in(m, k, vts, i, vs[i]);
    }
}

/// An upper bound only adds to a graph.
proof fn lemma_upper_small(g: Graph, types: Seq<InstId>, h: Graph)
    requires
        h == upper(g, Map::empty(), types).0,
        small(h),
    ensures
        small(g),
{
}

/// What is taken from a field of a struct has the type that is inferred for it, where a struct
/// type with that field is inferred for the struct.
pub proof fn what_is_taken_from_a_struct_has_its_inferred_type(
    base: Graph,
    g: Graph,
    paths: Set<Seq<Seq<char>>>,
    st: Ranges,
    record: InstId,
    field: InstId,
    n: NameId,
    limit: nat,
    v: InstId,
)
    requires
        base.wf(),
        limit <= base.nodes.len(),
        record.0 < limit,
        field.0 < limit,
        base.node(field) == Node::Name(n),
        ({
            let (h, t) = arg_bound(base, g, paths, st, record);
            &&& base.extended_by(h)
            &&& h.wf()
            &&& h.has(t)
            &&& is_fn(h, t, FN_STRUCT@)
            &&& first_field(h, struct_fields(h, t), h.name(n)) is Some
            &&& value_has(h, t, v)
        }),
    ensures
        ({
            let (h, t) = arg_bound(base, g, paths, st, record);
            let (k, r) = call_bound(base, g, paths, st, "fn:struct_get"@, seq![record, field], limit);
            &&& k == h
            &&& struct_entries(h, v) matches Some((vf, vv)) && (entries(
                vf,
                vv,
                None,
                vf.len(),
            ).contains_key(n) ==> value_has(k, r, entries(vf, vv, None, vf.len())[n]))
        }),
{
    lemma_functions("fn:struct_get"@);
    lemma_kinds();
    let args = seq![record, field];
    assert(ids_below(args, limit));
    assert(args[0] == record && args[1] == field);
    let (h, t) = arg_bound(base, g, paths, st, record);
    assert(base.nodes[field.0 as int].fits(field.0 as nat, base.names.len(), base.strings.len()));
    assert(h.has_name(n));
    lemma_smaller(h, t);
    let fields = struct_fields(h, t);
    assert forall|j: int| 0 <= j < fields.len() implies (#[trigger] fields[j]).0.0 < h.nodes.len() && fields[j].1.0
        < h.nodes.len() by {}
    let k = lemma_first_field(h, fields, n);
    assert(call_bound(base, g, paths, st, "fn:struct_get"@, args, limit) == (h, fields[k].1));
    assert(h.node(struct_fields(h, t)[k].0) == Node::Name(n));
    let (vf, vv) = struct_entries(h, v)->Some_0;
    assert(fields_hold(h, t, entries(vf, vv, None, vf.len())));
}

/// The first field of a name has it.
proof fn lemma_first_field(g: Graph, fields: Seq<(InstId, InstId, bool)>, n: NameId) -> (k: int)
    requires
        g.wf(),
        g.has_name(n),
        fields_below(fields, g.nodes.len()),
        first_field(g, fields, g.name(n)) is Some,
    ensures
        0 <= k < fields.len(),
        g.node(fields[k].0) == Node::Name(n),
        first_field(g, fields, g.name(n)) == Some(fields[k].1),
    decreases fields.len(),
{
    if is_name(g, fields[0].0, g.name(n)) {
        let id = fields[0].0;
        assert(g.nodes[id.0 as int].fits(id.0 as nat, g.names.len(), g.strings.len()));
        0
    } else {
        let rest = fields.drop_first();
        assert forall|j: int| 0 <= j < rest.len() implies (#[trigger] rest[j]).0.0 < g.nodes.len() && rest[j].1.0
            < g.nodes.len() by {
            assert(rest[j] == fields[j + 1]);
        }
        let k = lemma_first_field(g, rest, n);
        k + 1
    }
}

/// Each of several terms gets the type that is inferred for it alone, in the graph that the
/// inference for those before it leaves.
pub proof fn terms_are_inferred_in_turn(
    base: Graph,
    g: Graph,
    paths: Set<Seq<Seq<char>>>,
    st: Ranges,
    ids: Seq<InstId>,
    n: nat,
    limit: nat,
    i: int,
)
    requires
        base.wf(),
        limit <= base.nodes.len(),
        ids_below(ids, limit),
        0 <= i < n <= ids.len(),
    ensures
        arg_bounds(base, g, paths, st, ids, n, limit).1.len() == n,
        arg_bounds(base, g, paths, st, ids, n, limit).1[i] == arg_bound(
            base,
            arg_bounds(base, g, paths, st, ids, i as nat, limit).0,
            paths,
            st,
            ids[i],
        ).1,
    decreases n,
{
    if n > 1 {
        if i < n - 1 {
            terms_are_inferred_in_turn(base, g, paths, st, ids, (n - 1) as nat, limit, i);
        } else {
            terms_are_inferred_in_turn(base, g, paths, st, ids, (n - 1) as nat, limit, 0);
        }
    }
    if n == 1 {
        assert(arg_bounds(base, g, paths, st, ids, 0, limit) == (g, Seq::<InstId>::empty()));
    }
}

/// For keys and values in turn, the types of the keys are those that are inferred for the terms
/// at even places, and the types of the values those of the others.
pub proof fn keys_and_values_are_inferred_in_turn(
    base: Graph,
    g: Graph,
    paths: Set<Seq<Seq<char>>>,
    st: Ranges,
    ids: Seq<InstId>,
    n: nat,
    limit: nat,
)
    requires
        base.wf(),
        limit <= base.nodes.len(),
        ids_below(ids, limit),
        2 * n <= ids.len(),
    ensures
        ({
            let (h, types) = arg_bounds(base, g, paths, st, ids, 2 * n, limit);
            &&& types.len() == 2 * n
            &&& pair_bounds(base, g, paths, st, ids, n, limit) == (h, evens(types), odds(types))
        }),
    decreases n,
{
    if n == 0 {
        assert(evens(Seq::<InstId>::empty()) =~= Seq::<InstId>::empty());
        assert(odds(Seq::<InstId>::empty()) =~= Seq::<InstId>::empty());
    } else {
        keys_and_values_are_inferred_in_turn(base, g, paths, st, ids, (n - 1) as nat, limit);
        let (h, types) = arg_bounds(base, g, paths, st, ids, (2 * n - 2) as nat, limit);
        let (k, a) = arg_bound(base, h, paths, st, ids[2 * n - 2]);
        let (m, b) = arg_bound(base, k, paths, st, ids[2 * n - 1]);
        assert(arg_bounds(base, g, paths, st, ids, (2 * n - 1) as nat, limit) == (k, types.push(a)));
        let all = types.push(a).push(b);
        assert(arg_bounds(base, g, paths, st, ids, 2 * n, limit) == (m, all));
        assert(evens(all) =~= evens(types).push(a));
        assert(odds(all) =~= odds(types).push(b));
    }
}

/// For the fields of a struct, each name is followed by the type that is inferred for the term
/// after it.
pub proof fn fields_are_inferred_in_turn(
    base: Graph,
    g: Graph,
    paths: Set<Seq<Seq<char>>>,
    st: Ranges,
    ids: Seq<InstId>,
    n: nat,
    limit: nat,
)
    requires
        base.wf(),
        limit <= base.nodes.len(),
        ids_below(ids, limit),
        2 * n <= ids.len(),
        ids_below(odds(ids), limit),
    ensures
        ({
            let (h, types) = arg_bounds(base, g, paths, st, odds(ids), n, limit);
            let (k, args) = struct_call_bounds(base, g, paths, st, ids, n, limit);
            &&& types.len() == n
            &&& k == h
            &&& args.len() == 2 * n
            &&& forall|i: int| 0 <= i < n ==> #[trigger] args[2 * i] == ids[2 * i]
            &&& forall|i: int| 0 <= i < n ==> args[2 * i + 1] == #[trigger] types[i]
        }),
    decreases n,
{
    if n > 0 {
        fields_are_inferred_in_turn(base, g, paths, st, ids, (n - 1) as nat, limit);
        let (h, types) = arg_bounds(base, g, paths, st, odds(ids), (n - 1) as nat, limit);
        let (k, args) = struct_call_bounds(base, g, paths, st, ids, (n - 1) as nat, limit);
        assert(odds(ids)[n - 1] == ids[2 * n - 1]);
        let (m, t) = arg_bound(base, h, paths, st, ids[2 * n - 1]);
        let now = args.push(ids[2 * n - 2]).push(t);
        assert(arg_bounds(base, g, paths, st, odds(ids), n, limit) == (m, types.push(t)));
        assert(struct_call_bounds(base, g, paths, st, ids, n, limit) == (m, now));
        assert forall|i: int| 0 <= i < n implies #[trigger] now[2 * i] == ids[2 * i] by {
            if i < n - 1 {
                assert(args[2 * i] == ids[2 * i]);
            }
        }
        assert forall|i: int| 0 <= i < n implies now[2 * i + 1] == #[trigger] types.push(t)[i] by {
            if i < n - 1 {
                assert(args[2 * i + 1] == types[i]);
            }
        }
    }
}

/// The fields that names and types in turn give.
proof fn lemma_fields(g: Graph, args: Seq<InstId>, i: int)
    requires
        args.len() % 2 == 0,
        0 <= i <= args.len(),
        i % 2 == 0,
        forall|j: int| 0 <= j < args.len() && j % 2 == 0 ==> g.node(#[trigger] args[j]) is Name,
    ensures
        fields_from(g, args, i).len() == (args.len() - i) / 2,
        forall|j: int|
            0 <= j < (args.len() - i) / 2 ==> #[trigger] fields_from(g, args, i)[j] == (
                args[i + 2 * j],
                args[i + 2 * j + 1],
                false,
            ),
    decreases args.len() - i,
{
    if i < args.len() {
        lemma_fields(g, args, i + 2);
        let rest = fields_from(g, args, i + 2);
        assert(g.node(args[i]) is Name);
        assert(fields_from(g, args, i) == seq![(args[i], args[i + 1], false)] + rest);
        assert forall|j: int| 0 <= j < (args.len() - i) / 2 implies #[trigger] fields_from(g, args, i)[j] == (
            args[i + 2 * j],
            args[i + 2 * j + 1],
            false,
        ) by {
            if j > 0 {
                assert(rest[j - 1] == (args[i + 2 + 2 * (j - 1)], args[i + 2 + 2 * (j - 1) + 1], false));
            }
        }
    }
}

/// A struct of fields with different names has the type that is inferred for it, if the values of
/// the fields have theirs.
pub proof fn a_struct_has_its_inferred_type(
    base: Graph,
    g: Graph,
    paths: Set<Seq<Seq<char>>>,
    st: Ranges,
    args: Seq<InstId>,
    limit: nat,
    fields: Seq<NameId>,
    vs: Seq<InstId>,
    v: InstId,
)
    requires
        base.wf(),
        limit <= base.nodes.len(),
        ids_below(args, limit),
        ids_below(odds(args), limit),
        args.len() == 2 * fields.len(),
        fields.no_duplicates(),
        forall|i: int| 0 <= i < fields.len() ==> base.node(args[2 * i]) == Node::Name(#[trigger] fields[i]),
        small(call_bound(base, g, paths, st, "fn:struct"@, args, limit).0),
        ({
            let (h, types) = arg_bounds(base, g, paths, st, odds(args), fields.len(), limit);
            let k = call_bound(base, g, paths, st, "fn:struct"@, args, limit).0;
            &&& h.wf()
            &&& base.extended_by(h)
            &&& ids_below(types, h.nodes.len())
            &&& struct_entries(k, v) == Some((fields, vs))
            &&& vs.len() == fields.len()
            &&& forall|i: int| 0 <= i < vs.len() ==> value_has(k, types[i], #[trigger] vs[i])
        }),
    ensures
        value_has(
            call_bound(base, g, paths, st, "fn:struct"@, args, limit).0,
            call_bound(base, g, paths, st, "fn:struct"@, args, limit).1,
            v,
        ),
{
    lemma_functions("fn:struct"@);
    let n = fields.len();
    let (k, r) = call_bound(base, g, paths, st, "fn:struct"@, args, limit);
    let (h, types) = arg_bounds(base, g, paths, st, odds(args), n, limit);
    let ids = struct_call_bounds(base, g, paths, st, args, n, limit).1;
    fields_are_inferred_in_turn(base, g, paths, st, args, n, limit);
    assert(args.len() / 2 == n);
    assert forall|j: int| 0 <= j < ids.len() implies (#[trigger] ids[j]).0 < h.nodes.len() by {
        if j % 2 == 0 {
            assert(ids[2 * (j / 2)] == args[2 * (j / 2)]);
        } else {
            assert(ids[2 * (j / 2) + 1] == types[j / 2]);
        }
    }
    lemma_apply(h, FN_STRUCT@, ids);
    lemma_later(base, h, k);
    lemma_grounded_empty(base);
    assert forall|j: int| 0 <= j < ids.len() && j % 2 == 0 implies k.node(#[trigger] ids[j]) == Node::Name(
        fields[j / 2],
    ) by {
        assert(ids[2 * (j / 2)] == args[2 * (j / 2)]);
        assert(base.node(args[2 * (j / 2)]) == Node::Name(fields[j / 2]));
        lemma_same(base, k, Map::empty(), args[j]);
    }
    lemma_fields(k, ids, 0);
    let declares = struct_fields(k, r);
    assert forall|j: int| 0 <= j < n implies k.node((#[trigger] declares[j]).0) == Node::Name(fields[j])
        && declares[j].1 == types[j] && !declares[j].2 by {
        assert(declares[j] == (ids[0 + 2 * j], ids[0 + 2 * j + 1], false));
        assert(k.node(ids[2 * j]) == Node::Name(fields[(2 * j) / 2]));
        assert(ids[2 * j + 1] == types[j]);
    }
    a_struct_has_its_fields(k, r, v);
    assert forall|i: int, m: NameId|
        0 <= i < declares.len() && k.node((#[trigger] declares[i]).0) == Node::Name(m)
            && !declares[i].2 implies #[trigger] fields.contains(m) by {
        assert(fields[i] == m);
    }
    assert forall|j: int| 0 <= j < fields.len() implies declared(k, declares).contains(
        #[trigger] fields[j],
    ) by {
        assert(k.node(declares[j].0) == Node::Name(fields[j]));
    }
    assert forall|i: int, j: int|
        0 <= i < declares.len() && #[trigger] last_at(fields, j) && k.node((#[trigger] declares[i]).0)
            == Node::Name(fields[j]) implies value_has(k, declares[i].1, vs[j]) by {
        assert(fields[i] == fields[j]);
        assert(value_has(k, types[j], vs[j]));
    }
}

/// A shorter path is one above.
proof fn lemma_above(segs: Seq<Seq<char>>, n: nat, m: nat)
    requires
        n <= m,
    ensures
        lies_under(joined(segs, m), joined(segs, n)),
    decreases m,
{
    if n < m {
        lemma_above(segs, n, (m - 1) as nat);
        reveal_strlit("/");
        let a = joined(segs, (m - 1) as nat);
        let b = joined(segs, m);
        let c = joined(segs, n);
        assert(a.is_prefix_of(b)) by {
            assert(b.subrange(0, a.len() as int) =~= a);
        }
        assert(b.subrange(0, c.len() as int) =~= c) by {
            assert(a.subrange(0, c.len() as int) =~= c);
        }
        if a.len() == c.len() {
            assert(b[c.len() as int] == "/"@[0]);
        } else {
            assert(b[c.len() as int] == a[c.len() as int]);
        }
    } else {
        assert(joined(segs, m).is_prefix_of(joined(segs, n)));
    }
}

/// A name has the type that is inferred for it, be it `/name` or a path above the name.
pub proof fn a_name_has_its_inferred_type(
    base: Graph,
    g: Graph,
    paths: Set<Seq<Seq<char>>>,
    st: Ranges,
    c: InstId,
    n: NameId,
)
    requires
        base.wf(),
        g.wf(),
        base.extended_by(g),
        base.has(c),
        base.node(c) == Node::Name(n),
        base.name(n) == joined(segments(base.name(n)), segments(base.name(n)).len()),
        small(arg_bound(base, g, paths, st, c).0),
    ensures
        value_has(arg_bound(base, g, paths, st, c).0, arg_bound(base, g, paths, st, c).1, c),
{
    let (k, t) = arg_bound(base, g, paths, st, c);
    let text = prefix_of(paths, base.name(n));
    let segs = segments(base.name(n));
    lemma_name(g, text);
    lemma_later(base, g, k);
    lemma_grounded_empty(base);
    lemma_same(base, k, Map::empty(), c);
    assert(base.nodes[c.0 as int].fits(c.0 as nat, base.names.len(), base.strings.len()));
    assert(k.name(n) == base.name(n));
    a_prefix_is_the_longest(paths, segs, segs.len());
    lemma_above(segs, longest(paths, segs, segs.len()), segs.len());
}

/// A list that is written out has the type of a call that makes it.
pub proof fn a_written_list_is_inferred_as_a_call(
    base: Graph,
    g: Graph,
    paths: Set<Seq<Seq<char>>>,
    st: Ranges,
    c: InstId,
    elems: Seq<InstId>,
)
    requires
        base.wf(),
        base.has(c),
        base.node(c) == Node::List(elems),
    ensures
        arg_bound(base, g, paths, st, c) == call_bound(base, g, paths, st, "fn:list"@, elems, c.0 as nat),
{
    lemma_functions("fn:list"@);
    assert(base.nodes[c.0 as int].fits(c.0 as nat, base.names.len(), base.strings.len()));
}

/// A map that is written out has the type that is inferred for it, if the keys and values have
/// theirs and conformance among the types of keys, and among those of values, takes values along.
/// Where `/any` is among them, this is of constants.
pub proof fn a_written_map_has_its_inferred_type(
    base: Graph,
    g: Graph,
    paths: Set<Seq<Seq<char>>>,
    st: Ranges,
    c: InstId,
    keys: Seq<InstId>,
    values: Seq<InstId>,
    ks: Seq<InstId>,
    vs: Seq<InstId>,
    v: InstId,
)
    requires
        base.wf(),
        g.wf(),
        base.has(c),
        base.node(c) == (Node::Dict { keys, values }),
        small(arg_bound(base, g, paths, st, c).0),
        ({
            let (h, kts) = arg_bounds(base, g, paths, st, keys, keys.len(), c.0 as nat);
            let (i, vts) = arg_bounds(base, h, paths, st, values, values.len(), c.0 as nat);
            let (m, kt) = upper(i, Map::empty(), kts);
            let k = arg_bound(base, g, paths, st, c).0;
            &&& i.wf()
            &&& ids_below(kts, i.nodes.len())
            &&& ids_below(vts, i.nodes.len())
            &&& kts.len() == ks.len() && vts.len() == vs.len()
            &&& sound_among(i, k, flatten(i, kts, kts.len()))
            &&& sound_among(m, k, flatten(m, vts, vts.len()))
            &&& map_entries(k, v) == Some((ks, vs))
            &&& forall|j: int|
                0 <= j < ks.len() ==> value_has(k, kts[j], #[trigger] ks[j]) && (constant(k, ks[j])
                    || !some_any(i, kts))
            &&& forall|j: int|
                0 <= j < vs.len() ==> value_has(k, vts[j], #[trigger] vs[j]) && (constant(k, vs[j])
                    || !some_any(m, vts))
        }),
    ensures
        value_has(arg_bound(base, g, paths, st, c).0, arg_bound(base, g, paths, st, c).1, v),
{
    let limit = c.0 as nat;
    assert(base.nodes[c.0 as int].fits(c.0 as nat, base.names.len(), base.strings.len()));
    let (k, r) = arg_bound(base, g, paths, st, c);
    let (h, kts) = arg_bounds(base, g, paths, st, keys, keys.len(), limit);
    let (i, vts) = arg_bounds(base, h, paths, st, values, values.len(), limit);
    let (m, kt) = upper(i, Map::empty(), kts);
    let (n, vt) = upper(m, Map::empty(), vts);
    lemma_upper_small(m, vts, n);
    lemma_grounded_empty(i);
    lemma_upper(i, Map::empty(), kts);
    lemma_grounded_empty(m);
    lemma_upper(m, Map::empty(), vts);
    lemma_apply(n, FN_MAP@, seq![kt, vt]);
    lemma_map(k, r, kt, vt, v);
    lemma_later(m, n, k);
    assert forall|j: int| 0 <= j < ks.len() implies value_has(k, kt, #[trigger] ks[j]) by {
        an_upper_bound_takes_values_in(i, k, kts, j, ks[j]);
    }
    assert forall|j: int| 0 <= j < vs.len() implies value_has(k, vt, #[trigger] vs[j]) by {
        an_upper_bound_takes_values_in(m, k, vts, j, vs[j]);
    }
}

/// For a tuple the types that are inferred for its terms are inferred, in their order.
pub proof fn a_tuple_is_inferred_term_by_term(
    base: Graph,
    g: Graph,
    paths: Set<Seq<Seq<char>>>,
    st: Ranges,
    args: Seq<InstId>,
    limit: nat,
)
    requires
        base.wf(),
        limit <= base.nodes.len(),
        ids_below(args, limit),
        small(call_bound(base, g, paths, st, "fn:tuple"@, args, limit).0),
        arg_bounds(base, g, paths, st, args, args.len(), limit).0.wf(),
        ids_below(
            arg_bounds(base, g, paths, st, args, args.len(), limit).1,
            arg_bounds(base, g, paths, st, args, args.len(), limit).0.nodes.len(),
        ),
    ensures
        ({
            let (k, r) = call_bound(base, g, paths, st, "fn:tuple"@, args, limit);
            is_fn(k, r, FN_TUPLE@) && parts(k, r) == arg_bounds(base, g, paths, st, args, args.len(), limit).1
        }),
{
    lemma_functions("fn:tuple"@);
    let (h, types) = arg_bounds(base, g, paths, st, args, args.len(), limit);
    lemma_apply(h, FN_TUPLE@, types);
}

/// For a variable the type is inferred that is known of it.
pub proof fn a_variable_has_its_known_type(
    base: Graph,
    g: Graph,
    paths: Set<Seq<Seq<char>>>,
    st: Ranges,
    c: InstId,
    v: NameId,
    i: int,
)
    requires
        base.wf(),
        base.has(c),
        base.node(c) == Node::Var(v),
        0 <= i < st.vars.len(),
        st.vars[i] == v,
        forall|j: int| 0 <= j < i ==> st.vars[j] != v,
    ensures
        arg_bound(base, g, paths, st, c) == (g, st.types[i]),
{
    lemma_position(st.vars, v, 0, i);
}

proof fn lemma_position(vars: Seq<NameId>, v: NameId, from: int, i: int)
    requires
        0 <= from <= i < vars.len(),
        vars[i] == v,
        forall|j: int| 0 <= j < i ==> vars[j] != v,
    ensures
        position(vars, v, from) == Some(i),
    decreases i - from,
{
    if from < i {
        lemma_position(vars, v, from + 1, i);
    }
}

} // verus!
