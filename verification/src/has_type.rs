//! Checking values against types.
use vstd::prelude::*;

use crate::conform::{const_has_base_type, ir_eq};
use crate::conform::{has_base_type, parts, same_constant};
use crate::ir::{ids_below, names_below, Graph, Inst, InstId, Ir, NameId, Node};
use crate::names::{NameMap, NameSet};
use crate::text::str_eq;
use crate::type_expr::{
    copy_ids, name_id, names, struct_type_fields, tagged_union_tag_field, tagged_union_variants,
    FN_LIST, FN_MAP, FN_OPTION, FN_PAIR, FN_SINGLETON, FN_STRUCT, FN_TAGGED_UNION, FN_UNION,
};
use crate::type_expr::{
    fields_below, is_fn, is_name, lemma_fields_below, struct_fields, tag_field, variants,
};

verus! {

/// The items at even places.
pub open spec fn evens(s: Seq<InstId>) -> Seq<InstId> {
    Seq::new(s.len() / 2, |k: int| s[2 * k])
}

/// The items at odd places.
pub open spec fn odds(s: Seq<InstId>) -> Seq<InstId> {
    Seq::new(s.len() / 2, |k: int| s[2 * k + 1])
}

/// The elements of a list value in either representation: a list, or an
/// application of `fn:list`.
pub open spec fn list_elems(g: Graph, v: InstId) -> Option<Seq<InstId>> {
    match g.node(v) {
        Node::List(elems) => Some(elems),
        Node::ApplyFn { function, args } => if g.name(function) == "fn:list"@ {
            Some(args)
        } else {
            None
        },
        _ => None,
    }
}

/// The keys and values of a map value in either representation: a map, or an
/// application of `fn:map` to keys and values in turn.
pub open spec fn map_entries(g: Graph, v: InstId) -> Option<(Seq<InstId>, Seq<InstId>)> {
    match g.node(v) {
        Node::Dict { keys, values } => Some((keys, values)),
        Node::ApplyFn { function, args } => if g.name(function) == "fn:map"@ && args.len() % 2 == 0 {
            Some((evens(args), odds(args)))
        } else {
            None
        },
        _ => None,
    }
}

/// The names that instructions are.
pub open spec fn names_of(g: Graph, ids: Seq<InstId>) -> Seq<NameId> {
    Seq::new(ids.len(), |k: int| g.node(ids[k])->Name_0)
}

/// Every instruction is a name.
pub open spec fn all_names(g: Graph, ids: Seq<InstId>) -> bool {
    forall|k: int| 0 <= k < ids.len() ==> g.node(#[trigger] ids[k]) is Name
}

/// The fields and values of a struct value in either representation: a struct, or
/// an application of `fn:struct` to names and values in turn.
pub open spec fn struct_entries(g: Graph, v: InstId) -> Option<(Seq<NameId>, Seq<InstId>)> {
    match g.node(v) {
        Node::Struct { fields, values } => Some((fields, values)),
        Node::ApplyFn { function, args } => if g.name(function) == "fn:struct"@ && args.len() % 2 == 0
            && all_names(g, evens(args)) {
            Some((names_of(g, evens(args)), odds(args)))
        } else {
            None
        },
        _ => None,
    }
}

/// What the first `n` fields hold, but for the field `skip`; a later field of the
/// same name takes the place of an earlier one.
pub open spec fn entries(fields: Seq<NameId>, values: Seq<InstId>, skip: Option<NameId>, n: nat) -> Map<NameId, InstId>
    decreases n,
{
    if n == 0 {
        Map::empty()
    } else {
        let rest = entries(fields, values, skip, (n - 1) as nat);
        if skip == Some(fields[n - 1]) {
            rest
        } else {
            rest.insert(fields[n - 1], values[n - 1])
        }
    }
}

/// The names of the fields of a type.
pub open spec fn declared(g: Graph, fields: Seq<(InstId, InstId, bool)>) -> Set<NameId> {
    Set::new(
        |n: NameId|
            exists|k: int| 0 <= k < fields.len() && g.node((#[trigger] fields[k]).0) == Node::Name(n),
    )
}

/// Every field of the value is declared, but for the field `skip`.
pub open spec fn no_extra(
    g: Graph,
    fields: Seq<(InstId, InstId, bool)>,
    value_fields: Seq<NameId>,
    skip: Option<NameId>,
) -> bool {
    forall|j: int|
        0 <= j < value_fields.len() ==> Some(#[trigger] value_fields[j]) == skip || declared(
            g,
            fields,
        ).contains(value_fields[j])
}

/// The parts of a type that a value is checked against stand before the type.
pub proof fn lemma_smaller(g: Graph, t: InstId)
    requires
        g.wf(),
        g.has(t),
    ensures
        ids_below(parts(g, t), t.0 as nat),
        forall|k: int|
            0 <= k < struct_fields(g, t).len() ==> (#[trigger] struct_fields(g, t)[k]).1.0 < t.0,
        fields_below(struct_fields(g, t), t.0 as nat),
        variants(g, t) matches Some((tags, structs)) ==> tags.len() == structs.len() && ids_below(
            structs,
            t.0 as nat,
        ) && ids_below(tags, t.0 as nat) && tag_field(g, t) is Some && tag_field(g, t).unwrap().0
            < t.0,
{
    assert(g.nodes[t.0 as int].fits(t.0 as nat, g.names.len(), g.strings.len()));
    if is_fn(g, t, FN_STRUCT@) {
        lemma_fields_below(g, parts(g, t), 0, t.0 as nat);
    }
    if let Some((tags, structs)) = variants(g, t) {
        let args = parts(g, t);
        assert forall|k: int| 0 <= k < structs.len() implies (#[trigger] structs[k]).0 < t.0 by {
            assert(structs[k] == args[2 * k + 2]);
        }
        assert forall|k: int| 0 <= k < tags.len() implies (#[trigger] tags[k]).0 < t.0 by {
            assert(tags[k] == args[2 * k + 1]);
        }
        assert(args[0].0 < t.0);
    }
}

/// The value `v` has the type `t`.
pub open spec fn value_has(g: Graph, t: InstId, v: InstId) -> bool
    decreases t.0, 1nat,
    when g.wf() && g.has(t)
{
    proof {
        lemma_smaller(g, t);
    }
    match g.node(t) {
        Node::Name(_) => has_base_type(g, v, t),
        Node::Var(_) => true,
        Node::ApplyFn { function, args } => {
            let f = g.name(function);
            if f == FN_SINGLETON@ {
                args.len() == 1 && same_constant(g, v, args[0])
            } else if f == FN_UNION@ {
                exists|k: int| 0 <= k < parts(g, t).len() && value_has(g, #[trigger] parts(g, t)[k], v)
            } else if f == FN_TAGGED_UNION@ {
                match variants(g, t) {
                    Some((tags, structs)) => exists|k: int|
                        0 <= k < structs.len() && variant_has(
                            g,
                            tag_field(g, t).unwrap(),
                            tags[k],
                            #[trigger] structs[k],
                            v,
                        ),
                    None => false,
                }
            } else if f == FN_LIST@ {
                args.len() == 1 && (list_elems(g, v) matches Some(elems) && all_have(
                    g,
                    parts(g, t)[0],
                    elems,
                ))
            } else if f == FN_MAP@ {
                args.len() == 2 && (map_entries(g, v) matches Some((keys, values)) && all_have(
                    g,
                    parts(g, t)[0],
                    keys,
                ) && all_have(g, parts(g, t)[1], values))
            } else if f == FN_PAIR@ {
                args.len() == 2 && (list_elems(g, v) matches Some(elems) && elems.len() == 2
                    && value_has(g, parts(g, t)[0], elems[0]) && value_has(g, parts(g, t)[1], elems[1]))
            } else if f == FN_STRUCT@ {
                struct_entries(g, v) matches Some((vf, vv)) && no_extra(
                    g,
                    struct_fields(g, t),
                    vf,
                    None,
                ) && fields_hold(g, t, entries(vf, vv, None, vf.len()))
            } else if f == FN_OPTION@ {
                args.len() == 1 && (is_name(g, v, "/unit"@) || value_has(g, parts(g, t)[0], v))
            } else {
                false
            }
        },
        _ => false,
    }
}

/// Every value has the type `t`.
pub open spec fn all_have(g: Graph, t: InstId, values: Seq<InstId>) -> bool
    decreases t.0, 2nat,
    when g.wf() && g.has(t)
{
    forall|k: int| 0 <= k < values.len() ==> value_has(g, t, #[trigger] values[k])
}

/// Every field of the struct type `t` holds a value of its type, or is optional and
/// absent.
pub open spec fn fields_hold(g: Graph, t: InstId, held: Map<NameId, InstId>) -> bool
    decreases t.0, 0nat,
    when g.wf() && g.has(t)
{
    proof {
        lemma_smaller(g, t);
    }
    forall|k: int|
        0 <= k < struct_fields(g, t).len() ==> match g.node((#[trigger] struct_fields(g, t)[k]).0) {
            Node::Name(n) => if held.contains_key(n) {
                value_has(g, struct_fields(g, t)[k].1, held[n])
            } else {
                struct_fields(g, t)[k].2
            },
            _ => true,
        }
}

/// The position of the first occurrence.
pub open spec fn position(s: Seq<NameId>, n: NameId, i: int) -> Option<int>
    decreases s.len() - i,
{
    if i < 0 || i >= s.len() {
        None
    } else if s[i] == n {
        Some(i)
    } else {
        position(s, n, i + 1)
    }
}

/// The value is a struct whose tag field holds `tag` and whose other fields are
/// those of the variant.
pub open spec fn variant_has(g: Graph, field: InstId, tag: InstId, variant: InstId, v: InstId) -> bool
    decreases variant.0, 2nat,
    when g.wf() && g.has(variant)
{
    match (struct_entries(g, v), g.node(field)) {
        (Some((vf, vv)), Node::Name(f)) => {
            &&& position(vf, f, 0) matches Some(i) && same_constant(g, vv[i], tag)
            &&& no_extra(g, struct_fields(g, variant), vf, Some(f))
            &&& fields_hold(g, variant, entries(vf, vv, Some(f), vf.len()))
        },
        _ => false,
    }
}

/// The elements of a list value.
fn list_value_elems(ir: &Ir, value: InstId) -> (r: Option<Vec<InstId>>)
    requires
        ir@.wf(),
        ir@.has(value),
    ensures
        match list_elems(ir@, value) {
            Some(e) => r matches Some(v) && v@ == e && ids_below(e, value.0 as nat),
            None => r is None,
        },
{
    match ir.get(value) {
        Inst::List(elems) => Some(copy_ids(elems.as_slice())),
        Inst::ApplyFn { function, args } => if str_eq(ir.resolve_name(*function), "fn:list") {
            Some(copy_ids(args.as_slice()))
        } else {
            None
        },
        _ => None,
    }
}

/// Splits items that stand in turn.
fn split_pairs(args: &Vec<InstId>) -> (r: (Vec<InstId>, Vec<InstId>))
    ensures
        r.0@ == evens(args@),
        r.1@ == odds(args@),
{
    let mut a: Vec<InstId> = Vec::new();
    let mut b: Vec<InstId> = Vec::new();
    let half: usize = args.len() / 2;
    let mut k: usize = 0;
    while k < half
        invariant
            k <= half,
            a@ == evens(args@).take(k as int),
            b@ == odds(args@).take(k as int),
        decreases half - k,
    {
        a.push(args[2 * k]);
        b.push(args[2 * k + 1]);
        k += 1;
        assert(a@ =~= evens(args@).take(k as int));
        assert(b@ =~= odds(args@).take(k as int));
    }
    assert(a@ =~= evens(args@));
    assert(b@ =~= odds(args@));
    (a, b)
}

/// The keys and values of a map value.
fn map_value_entries(ir: &Ir, value: InstId) -> (r: Option<(Vec<InstId>, Vec<InstId>)>)
    requires
        ir@.wf(),
        ir@.has(value),
    ensures
        match map_entries(ir@, value) {
            Some((k, v)) => r matches Some((a, b)) && a@ == k && b@ == v && ids_below(
                k,
                value.0 as nat,
            ) && ids_below(v, value.0 as nat),
            None => r is None,
        },
{
    match ir.get(value) {
        Inst::Dict { keys, values } => Some((copy_ids(keys.as_slice()), copy_ids(values.as_slice()))),
        Inst::ApplyFn { function, args } => if str_eq(ir.resolve_name(*function), "fn:map")
            && args.len() % 2 == 0 {
            Some(split_pairs(args))
        } else {
            None
        },
        _ => None,
    }
}

/// Copies a list of names.
pub(crate) fn copy_names(names: &Vec<NameId>) -> (r: Vec<NameId>)
    ensures
        r@ == names@,
{
    let mut r: Vec<NameId> = Vec::new();
    let mut i: usize = 0;
    while i < names.len()
        invariant
            i <= names@.len(),
            r@ == names@.take(i as int),
        decreases names@.len() - i,
    {
        r.push(names[i]);
        i += 1;
        assert(r@ =~= names@.take(i as int));
    }
    assert(r@ =~= names@);
    r
}

/// The fields and values of a struct value; `None` of any other value.
fn struct_value_fields(ir: &Ir, value: InstId) -> (r: Option<(Vec<NameId>, Vec<InstId>)>)
    requires
        ir@.wf(),
        ir@.has(value),
    ensures
        match struct_entries(ir@, value) {
            Some((f, v)) => r matches Some((a, b)) && a@ == f && b@ == v && f.len() == v.len()
                && names_below(f, ir@.names.len()) && ids_below(v, value.0 as nat),
            None => r is None,
        },
{
    match ir.get(value) {
        Inst::Struct { fields, values } => Some((copy_names(fields), copy_ids(values.as_slice()))),
        Inst::ApplyFn { function, args } => {
            if !str_eq(ir.resolve_name(*function), "fn:struct") || args.len() % 2 != 0 {
                return None;
            }
            let (keys, values) = split_pairs(args);
            let mut fields: Vec<NameId> = Vec::new();
            let mut k: usize = 0;
            while k < keys.len()
                invariant
                    k <= keys@.len(),
                    forall|j: int| 0 <= j < k ==> ir@.node(#[trigger] keys@[j]) is Name,
                    fields@ == names_of(ir@, keys@).take(k as int),
                    names_below(fields@, ir@.names.len()),
                decreases keys@.len() - k,
            {
                assert(keys@[k as int] == args@[2 * k]);
                match name_id(ir, keys[k]) {
                    Some(n) => {
                        fields.push(n);
                        assert(fields@ =~= names_of(ir@, keys@).take(k + 1));
                    },
                    None => {
                        return None;
                    },
                }
                k += 1;
            }
            assert(fields@ =~= names_of(ir@, keys@));
            Some((fields, values))
        },
        _ => None,
    }
}

/// What the fields hold, but for the field `skip`.
fn build_entries(fields: &Vec<NameId>, values: &Vec<InstId>, skip: Option<NameId>) -> (r: NameMap<InstId>)
    requires
        fields@.len() == values@.len(),
    ensures
        r@ == entries(fields@, values@, skip, fields@.len()),
{
    let mut m: NameMap<InstId> = NameMap::new();
    let mut n: usize = 0;
    while n < fields.len()
        invariant
            n <= fields@.len(),
            m@ == entries(fields@, values@, skip, n as nat),
        decreases fields@.len() - n,
    {
        let skipped = match skip {
            Some(s) => s == fields[n],
            None => false,
        };
        if !skipped {
            m.insert(fields[n], values[n]);
        }
        n += 1;
    }
    m
}

/// The values that are held are values of the list.
proof fn lemma_entries_below(fields: Seq<NameId>, values: Seq<InstId>, skip: Option<NameId>, n: nat, limit: nat)
    requires
        fields.len() == values.len(),
        n <= fields.len(),
        ids_below(values, limit),
    ensures
        forall|k: NameId| #[trigger]
            entries(fields, values, skip, n).contains_key(k) ==> entries(fields, values, skip, n)[k].0
                < limit,
    decreases n,
{
    if n > 0 {
        lemma_entries_below(fields, values, skip, (n - 1) as nat, limit);
        let rest = entries(fields, values, skip, (n - 1) as nat);
        assert(values[n - 1].0 < limit);
        assert forall|k: NameId| #[trigger]
            entries(fields, values, skip, n).contains_key(k) implies entries(fields, values, skip, n)[k].0
            < limit by {
            if skip == Some(fields[n - 1]) || k != fields[n - 1] {
                assert(rest.contains_key(k));
            }
        }
    }
}

/// Whether every field holds a value of its type, or is optional and absent.
fn check_fields_hold(ir: &Ir, type_id: InstId, held: &NameMap<InstId>, Ghost(limit): Ghost<nat>) -> (r: bool)
    requires
        ir@.wf(),
        ir@.has(type_id),
        limit <= ir@.nodes.len(),
        forall|k: NameId| #[trigger] held@.contains_key(k) ==> held@[k].0 < limit,
    ensures
        r == fields_hold(ir@, type_id, held@),
    decreases type_id.0, 0nat,
{
    proof {
        lemma_smaller(ir@, type_id);
    }
    let fields = struct_type_fields(ir, type_id);
    let mut k: usize = 0;
    while k < fields.len()
        invariant
            k <= fields@.len(),
            forall|j: int|
                0 <= j < k ==> match ir@.node((#[trigger] struct_fields(ir@, type_id)[j]).0) {
                    Node::Name(n) => if held@.contains_key(n) {
                        value_has(ir@, struct_fields(ir@, type_id)[j].1, held@[n])
                    } else {
                        struct_fields(ir@, type_id)[j].2
                    },
                    _ => true,
                },
        decreases fields@.len() - k,
    {
        assert(fields@[k as int] == struct_fields(ir@, type_id)[k as int]);
        if let Some(n) = name_id(ir, fields[k].0) {
            match held.get(n) {
                Some(v) => {
                    assert(held@.contains_key(n));
                    if !has_type(ir, fields[k].1, *v) {
                        return false;
                    }
                },
                None => {
                    if !fields[k].2 {
                        return false;
                    }
                },
            }
        }
        k += 1;
    }
    true
}

/// Whether every field of the value is declared, but for the field `skip`.
fn check_no_extra(ir: &Ir, type_id: InstId, value_fields: &Vec<NameId>, skip: Option<NameId>) -> (r: bool)
    requires
        ir@.wf(),
        ir@.has(type_id),
    ensures
        r == no_extra(ir@, struct_fields(ir@, type_id), value_fields@, skip),
{
    let fields = struct_type_fields(ir, type_id);
    let mut known = NameSet::new();
    let mut k: usize = 0;
    while k < fields.len()
        invariant
            k <= fields@.len(),
            forall|n: NameId| #[trigger]
                known@.contains(n) <==> exists|j: int|
                    0 <= j < k && ir@.node((#[trigger] fields@[j]).0) == Node::Name(n),
        decreases fields@.len() - k,
    {
        let ghost before = known@;
        if let Some(n) = name_id(ir, fields[k].0) {
            known.insert(n);
        }
        assert forall|n: NameId| #[trigger] known@.contains(n) <==> exists|j: int|
            0 <= j < k + 1 && ir@.node((#[trigger] fields@[j]).0) == Node::Name(n) by {
            if ir@.node(fields@[k as int].0) == Node::Name(n) {
                assert(known@.contains(n));
            }
            if before.contains(n) {
                let j = choose|j: int|
                    0 <= j < k && ir@.node((#[trigger] fields@[j]).0) == Node::Name(n);
                assert(ir@.node(fields@[j].0) == Node::Name(n));
            }
        }
        k += 1;
    }
    assert(known@ =~= declared(ir@, fields@));
    let mut j: usize = 0;
    while j < value_fields.len()
        invariant
            j <= value_fields@.len(),
            forall|i: int|
                0 <= i < j ==> Some(#[trigger] value_fields@[i]) == skip || known@.contains(
                    value_fields@[i],
                ),
        decreases value_fields@.len() - j,
    {
        let skipped = match skip {
            Some(s) => s == value_fields[j],
            None => false,
        };
        if !skipped && !known.contains(value_fields[j]) {
            assert(Some(value_fields@[j as int]) != skip);
            return false;
        }
        j += 1;
    }
    true
}

/// Whether a value has a struct type: every field holds a value of its type, or is
/// optional and absent, and the value has no other fields.
fn has_type_struct(ir: &Ir, type_id: InstId, value: InstId) -> (r: bool)
    requires
        ir@.wf(),
        ir@.has(type_id),
        ir@.has(value),
    ensures
        r == (struct_entries(ir@, value) matches Some((vf, vv)) && no_extra(
            ir@,
            struct_fields(ir@, type_id),
            vf,
            None,
        ) && fields_hold(ir@, type_id, entries(vf, vv, None, vf.len()))),
    decreases type_id.0, 1nat,
{
    let (vfields, vvalues) = match struct_value_fields(ir, value) {
        Some(pair) => pair,
        None => return false,
    };
    let held = build_entries(&vfields, &vvalues, None);
    proof {
        lemma_entries_below(vfields@, vvalues@, None, vfields@.len(), value.0 as nat);
    }
    check_fields_hold(ir, type_id, &held, Ghost(value.0 as nat)) && check_no_extra(
        ir,
        type_id,
        &vfields,
        None,
    )
}

/// The place of the first occurrence of a name.
fn find_position(list: &Vec<NameId>, n: NameId) -> (r: Option<usize>)
    ensures
        match r {
            Some(i) => position(list@, n, 0) == Some(i as int) && i < list@.len(),
            None => position(list@, n, 0) is None,
        },
{
    let mut i: usize = 0;
    while i < list.len()
        invariant
            i <= list@.len(),
            position(list@, n, 0) == position(list@, n, i as int),
        decreases list@.len() - i,
    {
        if list[i] == n {
            return Some(i);
        }
        i += 1;
    }
    None
}

/// Whether a struct value is a value of a variant of a tagged union.
fn has_type_tagged_variant(ir: &Ir, field: InstId, tag: InstId, variant: InstId, value: InstId) -> (r: bool)
    requires
        ir@.wf(),
        ir@.has(field),
        ir@.has(tag),
        ir@.has(variant),
        ir@.has(value),
    ensures
        r == variant_has(ir@, field, tag, variant, value),
    decreases variant.0, 2nat,
{
    let (vfields, vvalues) = match struct_value_fields(ir, value) {
        Some(pair) => pair,
        None => return false,
    };
    let f = match name_id(ir, field) {
        Some(n) => n,
        None => return false,
    };
    match find_position(&vfields, f) {
        Some(i) => {
            if !ir_eq(ir, vvalues[i], tag) {
                return false;
            }
        },
        None => return false,
    }
    let held = build_entries(&vfields, &vvalues, Some(f));
    proof {
        lemma_entries_below(vfields@, vvalues@, Some(f), vfields@.len(), value.0 as nat);
    }
    check_fields_hold(ir, variant, &held, Ghost(value.0 as nat)) && check_no_extra(
        ir,
        variant,
        &vfields,
        Some(f),
    )
}

/// Whether every value has the type.
fn check_all_have(ir: &Ir, t: InstId, values: &Vec<InstId>) -> (r: bool)
    requires
        ir@.wf(),
        ir@.has(t),
        ids_below(values@, ir@.nodes.len()),
    ensures
        r == all_have(ir@, t, values@),
    decreases t.0, 3nat,
{
    let mut k: usize = 0;
    while k < values.len()
        invariant
            k <= values@.len(),
            forall|j: int| 0 <= j < k ==> value_has(ir@, t, #[trigger] values@[j]),
        decreases values@.len() - k,
    {
        if !has_type(ir, t, values[k]) {
            return false;
        }
        k += 1;
    }
    true
}

/// Checks if a value matches a type expression.
///
/// This is for system boundaries, where facts come in from outside. Facts that
/// rules derive need no such check once the rules have been checked.
pub fn has_type(ir: &Ir, type_expr: InstId, value: InstId) -> (r: bool)
    requires
        ir@.wf(),
        ir@.has(type_expr),
        ir@.has(value),
    ensures
        r == value_has(ir@, type_expr, value),
    decreases type_expr.0, 2nat,
{
    let ghost g = ir@;
    proof {
        lemma_smaller(g, type_expr);
    }
    let (function, args) = match ir.get(type_expr) {
        Inst::Name(_) => return const_has_base_type(ir, value, type_expr),
        Inst::Var(_) => return true,
        Inst::ApplyFn { function, args } => (*function, args),
        _ => return false,
    };
    assert(args@ == parts(g, type_expr));
    let f = ir.resolve_name(function);
    if str_eq(f, FN_SINGLETON) {
        args.len() == 1 && ir_eq(ir, value, args[0])
    } else if str_eq(f, FN_UNION) {
        let mut k: usize = 0;
        while k < args.len()
            invariant
                k <= args@.len(),
                forall|j: int| 0 <= j < k ==> !value_has(g, #[trigger] parts(g, type_expr)[j], value),
            decreases args@.len() - k,
        {
            assert(args@[k as int] == parts(g, type_expr)[k as int]);
            if has_type(ir, args[k], value) {
                return true;
            }
            k += 1;
        }
        false
    } else if str_eq(f, FN_TAGGED_UNION) {
        match (tagged_union_variants(ir, type_expr), tagged_union_tag_field(ir, type_expr)) {
            (Some((tags, structs)), Some(field)) => {
                let mut k: usize = 0;
                while k < structs.len()
                    invariant
                        k <= structs@.len(),
                        forall|j: int|
                            0 <= j < k ==> !variant_has(
                                g,
                                field,
                                tags@[j],
                                #[trigger] structs@[j],
                                value,
                            ),
                    decreases structs@.len() - k,
                {
                    assert(variants(g, type_expr).unwrap().1[k as int] == structs@[k as int]);
                    assert(variants(g, type_expr).unwrap().0[k as int] == tags@[k as int]);
                    if has_type_tagged_variant(ir, field, tags[k], structs[k], value) {
                        return true;
                    }
                    k += 1;
                }
                false
            },
            _ => false,
        }
    } else if str_eq(f, FN_LIST) {
        if args.len() != 1 {
            return false;
        }
        assert(args@[0] == parts(g, type_expr)[0]);
        match list_value_elems(ir, value) {
            Some(elems) => check_all_have(ir, args[0], &elems),
            None => false,
        }
    } else if str_eq(f, FN_MAP) {
        if args.len() != 2 {
            return false;
        }
        assert(args@[0] == parts(g, type_expr)[0] && args@[1] == parts(g, type_expr)[1]);
        match map_value_entries(ir, value) {
            Some((keys, values)) => check_all_have(ir, args[0], &keys) && check_all_have(
                ir,
                args[1],
                &values,
            ),
            None => false,
        }
    } else if str_eq(f, FN_PAIR) {
        if args.len() != 2 {
            return false;
        }
        assert(args@[0] == parts(g, type_expr)[0] && args@[1] == parts(g, type_expr)[1]);
        match list_value_elems(ir, value) {
            Some(elems) => elems.len() == 2 && has_type(ir, args[0], elems[0]) && has_type(
                ir,
                args[1],
                elems[1],
            ),
            None => false,
        }
    } else if str_eq(f, FN_STRUCT) {
        has_type_struct(ir, type_expr, value)
    } else if str_eq(f, FN_OPTION) {
        if args.len() != 1 {
            return false;
        }
        assert(args@[0] == parts(g, type_expr)[0]);
        names(ir, value, "/unit") || has_type(ir, args[0], value)
    } else {
        false
    }
}

/// Whether an instruction is put together from others.
pub open spec fn compound(n: Node) -> bool {
    n is List || n is Dict || n is Struct || n is ApplyFn
}

/// Whether every type of one value is that of a constant.
pub open spec fn singles_constants(g: Graph) -> bool {
    forall|s: InstId|
        g.has(s) && #[trigger] is_fn(g, s, FN_SINGLETON@) && parts(g, s).len() == 1 ==> !compound(
            g.node(parts(g, s)[0]),
        )
}

/// Whether two instructions are one list, map or struct, written as such and as an application.
pub open spec fn written_twice(g: Graph, v: InstId, w: InstId) -> bool {
    match (g.node(v), g.node(w)) {
        (Node::List(elems), Node::ApplyFn { .. }) => list_elems(g, w) == Some(elems),
        (Node::Dict { keys, values }, Node::ApplyFn { .. }) => map_entries(g, w) == Some((keys, values)),
        (Node::Struct { fields, values }, Node::ApplyFn { .. }) => struct_entries(g, w) == Some(
            (fields, values),
        ),
        _ => false,
    }
}

/// Both ways to write a list, a map or a struct give one answer: the same types have them.
pub proof fn both_writings_have_the_same_types(g: Graph, t: InstId, v: InstId, w: InstId)
    requires
        g.wf(),
        g.has(t),
        singles_constants(g),
        written_twice(g, v, w),
    ensures
        value_has(g, t, v) == value_has(g, t, w),
    decreases t.0,
{
    reveal_strlit("fn:list");
    reveal_strlit("fn:map");
    reveal_strlit("fn:struct");
    assert("fn:list"@.len() == 7 && "fn:map"@.len() == 6 && "fn:struct"@.len() == 9);
    lemma_smaller(g, t);
    assert(struct_entries(g, v) == struct_entries(g, w));
    assert(list_elems(g, v) == list_elems(g, w));
    assert(map_entries(g, v) == map_entries(g, w));
    if let Node::ApplyFn { function, args } = g.node(t) {
        let f = g.name(function);
        if f == FN_SINGLETON@ {
            if args.len() == 1 {
                assert(is_fn(g, t, FN_SINGLETON@));
                assert(parts(g, t)[0] == args[0]);
            }
        } else if f == FN_UNION@ {
            assert forall|k: int| 0 <= k < parts(g, t).len() implies value_has(g, #[trigger] parts(g, t)[k], v)
                == value_has(g, parts(g, t)[k], w) by {
                both_writings_have_the_same_types(g, parts(g, t)[k], v, w);
            }
        } else if f == FN_TAGGED_UNION@ {
            if let Some((tags, structs)) = variants(g, t) {
                assert forall|k: int| 0 <= k < structs.len() implies variant_has(
                    g,
                    tag_field(g, t).unwrap(),
                    tags[k],
                    #[trigger] structs[k],
                    v,
                ) == variant_has(g, tag_field(g, t).unwrap(), tags[k], structs[k], w) by {
                    assert(g.has(structs[k]));
                }
            }
        } else if f == FN_OPTION@ {
            if args.len() == 1 {
                both_writings_have_the_same_types(g, parts(g, t)[0], v, w);
            }
        }
    }
}

/// Place `j` is the last one at which its field stands.
pub open spec fn last_at(fields: Seq<NameId>, j: int) -> bool {
    &&& 0 <= j < fields.len()
    &&& forall|i: int| j < i < fields.len() ==> #[trigger] fields[i] != fields[j]
}

/// What the first `n` fields hold: each what stands at its last place among them.
proof fn lemma_entries(fields: Seq<NameId>, values: Seq<InstId>, n: nat)
    requires
        n <= fields.len(),
    ensures
        forall|f: NameId| #[trigger]
            entries(fields, values, None, n).contains_key(f) <==> fields.take(n as int).contains(f),
        forall|j: int|
            0 <= j < n && #[trigger] last_at(fields.take(n as int), j) ==> entries(fields, values, None, n)[fields[j]]
                == values[j],
    decreases n,
{
    let now = fields.take(n as int);
    if n > 0 {
        lemma_entries(fields, values, (n - 1) as nat);
        let before = fields.take(n - 1);
        assert(now =~= before.push(fields[n - 1]));
        assert forall|f: NameId| #[trigger]
            entries(fields, values, None, n).contains_key(f) <==> now.contains(f) by {
            assert(now[n - 1] == fields[n - 1]);
            let rest = entries(fields, values, None, (n - 1) as nat);
            assert(entries(fields, values, None, n) == rest.insert(fields[n - 1], values[n - 1]));
            assert(rest.contains_key(f) <==> before.contains(f));
            if before.contains(f) {
                let i = before.index_of(f);
                assert(now[i] == f);
            }
            if now.contains(f) && f != fields[n - 1] {
                let i = now.index_of(f);
                assert(before[i] == f);
            }
        }
        assert forall|j: int| 0 <= j < n && #[trigger] last_at(now, j) implies entries(fields, values, None, n)[fields[j]]
            == values[j] by {
            if j < n - 1 {
                assert(now[n - 1] != now[j]);
                assert(last_at(before, j)) by {
                    assert forall|i: int| j < i < before.len() implies #[trigger] before[i] != before[j] by {
                        assert(now[i] != now[j]);
                    }
                }
            }
        }
    }
}

/// A value has a struct type if and only if it is a struct, in either writing, that has every
/// field of the type but for optional ones, has no field that the type does not declare, and
/// holds in each field a value of the type declared for it. Where a value names a field more
/// than once, the last place counts.
pub proof fn a_struct_has_its_fields(g: Graph, t: InstId, v: InstId)
    requires
        g.wf(),
        g.has(t),
        is_fn(g, t, FN_STRUCT@),
    ensures
        struct_entries(g, v) is None ==> !value_has(g, t, v),
        struct_entries(g, v) matches Some((vf, vv)) ==> (value_has(g, t, v) <==> {
            &&& forall|k: int, n: NameId|
                0 <= k < struct_fields(g, t).len() && g.node((#[trigger] struct_fields(g, t)[k]).0)
                    == Node::Name(n) && !struct_fields(g, t)[k].2 ==> #[trigger] vf.contains(n)
            &&& forall|j: int|
                0 <= j < vf.len() ==> declared(g, struct_fields(g, t)).contains(#[trigger] vf[j])
            &&& forall|k: int, j: int|
                0 <= k < struct_fields(g, t).len() && #[trigger] last_at(vf, j) && g.node(
                    (#[trigger] struct_fields(g, t)[k]).0,
                ) == Node::Name(vf[j]) ==> value_has(g, struct_fields(g, t)[k].1, vv[j])
        }),
{
    reveal_strlit("fn:Struct");
    reveal_strlit("fn:Singleton");
    reveal_strlit("fn:Union");
    reveal_strlit("fn:TaggedUnion");
    reveal_strlit("fn:List");
    reveal_strlit("fn:Map");
    reveal_strlit("fn:Pair");
    assert(FN_STRUCT@.len() == 9 && FN_SINGLETON@.len() == 12 && FN_UNION@.len() == 8);
    assert(FN_TAGGED_UNION@.len() == 14 && FN_LIST@.len() == 7 && FN_MAP@.len() == 6 && FN_PAIR@.len() == 7);
    let fields = struct_fields(g, t);
    lemma_smaller(g, t);
    if let Some((vf, vv)) = struct_entries(g, v) {
        let held = entries(vf, vv, None, vf.len());
        lemma_entries(vf, vv, vf.len());
        assert(vf.take(vf.len() as int) =~= vf);
        if value_has(g, t, v) {
            assert(no_extra(g, fields, vf, None));
            assert(fields_hold(g, t, held));
        } else if (forall|k: int, n: NameId|
            0 <= k < fields.len() && g.node((#[trigger] fields[k]).0) == Node::Name(n) && !fields[k].2
                ==> #[trigger] vf.contains(n)) && (forall|j: int|
            0 <= j < vf.len() ==> declared(g, fields).contains(#[trigger] vf[j])) && (forall|k: int, j: int|
            0 <= k < fields.len() && #[trigger] last_at(vf, j) && g.node((#[trigger] fields[k]).0)
                == Node::Name(vf[j]) ==> value_has(g, fields[k].1, vv[j])) {
            assert(no_extra(g, fields, vf, None));
            assert forall|k: int| 0 <= k < fields.len() implies match g.node((#[trigger] fields[k]).0) {
                Node::Name(n) => if held.contains_key(n) {
                    value_has(g, fields[k].1, held[n])
                } else {
                    fields[k].2
                },
                _ => true,
            } by {
                if let Node::Name(n) = g.node(fields[k].0) {
                    if held.contains_key(n) {
                        let j = lemma_last(vf, n, vf.len());
                        assert(held[vf[j]] == vv[j]);
                    } else {
                        assert(!vf.contains(n));
                    }
                }
            }
            assert(fields_hold(g, t, held));
        }
    }
}

/// The last place of a field.
proof fn lemma_last(fields: Seq<NameId>, f: NameId, n: nat) -> (j: int)
    requires
        n <= fields.len(),
        fields.take(n as int).contains(f),
        forall|i: int| n <= i < fields.len() ==> #[trigger] fields[i] != f,
    ensures
        last_at(fields, j),
        fields[j] == f,
    decreases n,
{
    let i = fields.take(n as int).index_of(f);
    assert(fields[i] == f);
    if fields[n - 1] == f {
        n - 1
    } else {
        assert(fields.take(n - 1)[i] == f);
        lemma_last(fields, f, (n - 1) as nat)
    }
}

} // verus!
