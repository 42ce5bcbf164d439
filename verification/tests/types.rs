//! Types: what is refused, what bounds promise, fields and variables.
use mangle::conform::{const_has_base_type, ir_eq, name_under, set_conforms, type_conforms};
use mangle::has_type::has_type;
use mangle::infer::{bound_of_arg, InferState};
use mangle::ir::{Inst, InstId, Ir};
use mangle::name_trie::NameTrie;
use mangle::names::NameMap;
use mangle::type_bounds::{intersect_type, lower_bound, remove_from_union_type, upper_bound};
use mangle::type_expr::{
    empty_type, find_or_create_name, is_any, is_base_type, is_empty_type, list_type_arg, map_type_args, new_list_type,
    new_map_type, new_rel_type, new_struct_type, new_tuple_type, rel_type_alternatives, rel_type_from_alternatives,
    rel_types_from_decl, struct_type_field, struct_type_fields, tagged_union_tag_field, tagged_union_variants,
    union_type_args, TypeContext, FN_FUN, FN_LIST, FN_MAP, FN_OPT, FN_OPTION, FN_PAIR, FN_REL, FN_SINGLETON, FN_STRUCT,
    FN_TAGGED_UNION, FN_TUPLE, FN_UNION,
};
use mangle::type_ops::{
    apply_subst, collect_vars, expand_tagged_union_for_bounds, expand_tagged_union_type, get_type_context,
    struct_type_field_deep,
};
use mangle::wellformed::{wellformed_type, TypeError};

fn name(ir: &mut Ir, s: &str) -> InstId {
    let n = ir.intern_name(s);
    ir.add_inst(Inst::Name(n))
}

fn apply(ir: &mut Ir, function: &str, args: Vec<InstId>) -> InstId {
    let function = ir.intern_name(function);
    ir.add_inst(Inst::ApplyFn { function, args })
}

fn var(ir: &mut Ir, s: &str) -> InstId {
    let n = ir.intern_name(s);
    ir.add_inst(Inst::Var(n))
}

fn number(ir: &mut Ir, n: i64) -> InstId {
    ir.add_inst(Inst::Number(n))
}

fn refused(ir: &Ir, id: InstId, message: &str) {
    let error = wellformed_type(ir, &TypeContext::new(), id).unwrap_err();
    assert_eq!(error.message(ir), message);
}

#[test]
fn every_refusal_has_its_reason() {
    let mut ir = Ir::new();
    let ir = &mut ir;
    let num = name(ir, "/number");
    let text = name(ir, "/string");
    let x = name(ir, "/x");
    let one = number(ir, 1);
    let unknown = name(ir, "nothing");
    refused(ir, unknown, "unknown type name: nothing");
    let v = var(ir, "T");
    refused(ir, v, "type variable T not in context");
    refused(ir, one, "not a valid type expression");
    for (function, args, message) in [
        (FN_UNION, vec![num], "fn:Union requires at least 2 alternatives"),
        (FN_SINGLETON, vec![num, num], "fn:Singleton requires exactly 1 argument"),
        (FN_SINGLETON, vec![v], "fn:Singleton argument must be a constant"),
        (FN_LIST, vec![], "fn:List requires exactly 1 argument"),
        (FN_MAP, vec![num], "fn:Map requires exactly 2 arguments"),
        (FN_PAIR, vec![num], "fn:Pair requires exactly 2 arguments"),
        (FN_TUPLE, vec![num], "fn:Tuple requires at least 2 arguments"),
        (FN_OPTION, vec![], "fn:Option requires exactly 1 argument"),
        (FN_REL, vec![], "fn:Rel requires at least 1 argument"),
        (FN_FUN, vec![], "fn:Fun requires at least 1 argument (the result type)"),
        (FN_OPT, vec![x], "fn:opt requires exactly 2 arguments"),
        (FN_OPT, vec![one, num], "fn:opt first argument must be a name constant"),
        ("fn:Thing", vec![num], "unknown type constructor: fn:Thing"),
        (FN_STRUCT, vec![x], "fn:Struct: odd number of args (missing type for last field)"),
        (FN_STRUCT, vec![one, num], "fn:Struct field name must be a name constant"),
        (FN_STRUCT, vec![x, num, x, text], "duplicate struct field: /x"),
        (FN_TAGGED_UNION, vec![x], "fn:TaggedUnion requires at least 3 arguments (tag_field, tag, struct)"),
        (FN_TAGGED_UNION, vec![x, x, num, x], "fn:TaggedUnion requires odd number of arguments"),
        (FN_TAGGED_UNION, vec![one, x, num], "fn:TaggedUnion tag field must be a name constant"),
        (FN_TAGGED_UNION, vec![x, one, num], "fn:TaggedUnion variant tag must be a name constant"),
        (FN_TAGGED_UNION, vec![x, x, num], "fn:TaggedUnion variant type for /x must be fn:Struct"),
    ] {
        let id = apply(ir, function, args);
        refused(ir, id, message);
    }
    let short = apply(ir, FN_OPT, vec![x]);
    let s = apply(ir, FN_STRUCT, vec![short]);
    refused(ir, s, "fn:opt requires 2 arguments");
    let unnamed = apply(ir, FN_OPT, vec![one, num]);
    let s = apply(ir, FN_STRUCT, vec![unnamed]);
    refused(ir, s, "fn:opt field name must be a name constant");
    let plain = apply(ir, FN_STRUCT, vec![]);
    let kind = name(ir, "/kind");
    let twice = apply(ir, FN_TAGGED_UNION, vec![kind, x, plain, x, plain]);
    refused(ir, twice, "fn:TaggedUnion duplicate variant tag: /x");
    let inner = apply(ir, FN_STRUCT, vec![kind, num]);
    let hidden = apply(ir, FN_TAGGED_UNION, vec![kind, x, inner]);
    refused(ir, hidden, "fn:TaggedUnion tag field /kind must not appear in variant struct for /x");
    // A variable is known where it is bound.
    let mut ctx = TypeContext::new();
    let t = ir.intern_name("T");
    ctx.insert(t, num);
    assert_eq!(wellformed_type(ir, &ctx, v), Ok(()));
}

#[test]
fn only_tagged_unions_expand() {
    let mut ir = Ir::new();
    let num = name(&mut ir, "/number");
    assert_eq!(expand_tagged_union_type(&mut ir, num), Err(TypeError::NotTaggedUnion));
    let bad = apply(&mut ir, FN_TAGGED_UNION, vec![num, num]);
    assert_eq!(expand_tagged_union_type(&mut ir, bad), Err(TypeError::TaggedUnionArity));
    assert_eq!(expand_tagged_union_for_bounds(&mut ir, num), Err(TypeError::NotTaggedUnion));
    assert_eq!(expand_tagged_union_for_bounds(&mut ir, bad), Err(TypeError::TaggedUnionArity));
    assert_eq!(TypeError::NotTaggedUnion.message(&ir), "not a TaggedUnion");
    assert_eq!(TypeError::TaggedUnionArity.message(&ir), "TaggedUnion: bad arity");
}

/// `TaggedUnion</kind, /move: Struct</x: /number>, /quit: Struct<>>`
fn moves(ir: &mut Ir) -> InstId {
    let kind = name(ir, "/kind");
    let go = name(ir, "/move");
    let quit = name(ir, "/quit");
    let x = name(ir, "/x");
    let num = name(ir, "/number");
    let first = apply(ir, FN_STRUCT, vec![x, num]);
    let second = apply(ir, FN_STRUCT, vec![]);
    apply(ir, FN_TAGGED_UNION, vec![kind, go, first, quit, second])
}

fn structure(ir: &mut Ir, fields: Vec<(&str, InstId)>) -> InstId {
    let names = fields.iter().map(|f| ir.intern_name(f.0)).collect();
    let values = fields.iter().map(|f| f.1).collect();
    ir.add_inst(Inst::Struct { fields: names, values })
}

#[test]
fn an_expansion_keeps_the_values() {
    let mut ir = Ir::new();
    let tu = moves(&mut ir);
    let go = name(&mut ir, "/move");
    let quit = name(&mut ir, "/quit");
    let one = number(&mut ir, 1);
    let values = vec![
        (structure(&mut ir, vec![("/kind", go), ("/x", one)]), true),
        (structure(&mut ir, vec![("/x", one), ("/kind", go)]), true),
        (structure(&mut ir, vec![("/kind", quit)]), true),
        (structure(&mut ir, vec![("/kind", quit), ("/x", one)]), false),
        (structure(&mut ir, vec![("/kind", go)]), false),
        (structure(&mut ir, vec![("/kind", one)]), false),
        (structure(&mut ir, vec![("/x", one)]), false),
        (one, false),
    ];
    let expanded = expand_tagged_union_type(&mut ir, tu).unwrap();
    for (v, holds) in values {
        assert_eq!(has_type(&ir, tu, v), holds);
        assert_eq!(has_type(&ir, expanded, v), holds);
    }
    // For bounds, a tag may be any name.
    let wide = expand_tagged_union_for_bounds(&mut ir, tu).unwrap();
    let v = structure(&mut ir, vec![("/kind", go)]);
    assert!(has_type(&ir, wide, v));
}

#[test]
fn conformance_has_a_top_and_a_bottom() {
    let mut ir = Ir::new();
    let ctx = TypeContext::new();
    let tu = moves(&mut ir);
    let any = name(&mut ir, "/any");
    let bot = name(&mut ir, "/bot");
    let num = name(&mut ir, "/number");
    let list = new_list_type(&mut ir, num);
    for t in [tu, any, bot, num, list] {
        assert!(set_conforms(&ir, &ctx, t, t));
        assert!(set_conforms(&ir, &ctx, t, any));
        assert!(set_conforms(&ir, &ctx, bot, t));
        assert!(type_conforms(&ir, &ctx, t, any));
    }
    assert!(!set_conforms(&ir, &ctx, any, num));
    // What is added later changes nothing.
    let before = set_conforms(&ir, &ctx, list, num);
    apply(&mut ir, FN_UNION, vec![num, list]);
    assert_eq!(set_conforms(&ir, &ctx, list, num), before);
}

#[test]
fn unions_conform_by_their_alternatives() {
    let mut ir = Ir::new();
    let ctx = TypeContext::new();
    let num = name(&mut ir, "/number");
    let text = name(&mut ir, "/string");
    let time = name(&mut ir, "/time");
    let two = apply(&mut ir, FN_UNION, vec![num, text]);
    let three = apply(&mut ir, FN_UNION, vec![time, text, num]);
    assert!(set_conforms(&ir, &ctx, text, three));
    assert!(set_conforms(&ir, &ctx, two, three));
    assert!(!set_conforms(&ir, &ctx, three, two));
}

#[test]
fn upper_bounds_are_above_and_least() {
    let mut ir = Ir::new();
    let ctx = TypeContext::new();
    let dog = name(&mut ir, "/animal/dog");
    let animal = name(&mut ir, "/animal");
    let num = name(&mut ir, "/number");
    let text = name(&mut ir, "/string");
    let pair = apply(&mut ir, FN_UNION, vec![num, dog]);
    let all = apply(&mut ir, FN_UNION, vec![text, num, animal]);
    let ub = upper_bound(&mut ir, &ctx, &[dog, pair, animal]);
    for t in [dog, pair, animal] {
        assert!(set_conforms(&ir, &ctx, t, ub));
    }
    assert!(set_conforms(&ir, &ctx, ub, all));
    assert_eq!(union_type_args(&ir, ub).unwrap(), &[animal, num]);
    let nothing = upper_bound(&mut ir, &ctx, &[]);
    assert!(is_empty_type(&ir, nothing));
    let any = name(&mut ir, "/any");
    let ub = upper_bound(&mut ir, &ctx, &[num, any]);
    assert!(is_any(&ir, ub));
}

#[test]
fn intersections_are_below() {
    let mut ir = Ir::new();
    let ctx = TypeContext::new();
    let dog = name(&mut ir, "/animal/dog");
    let animal = name(&mut ir, "/animal");
    let num = name(&mut ir, "/number");
    let text = name(&mut ir, "/string");
    let a = apply(&mut ir, FN_UNION, vec![animal, num]);
    let b = apply(&mut ir, FN_UNION, vec![text, dog, num]);
    let met = intersect_type(&mut ir, &ctx, a, b);
    assert!(set_conforms(&ir, &ctx, met, a));
    assert!(set_conforms(&ir, &ctx, met, b));
    assert_eq!(union_type_args(&ir, met).unwrap(), &[dog, num]);
    let none = intersect_type(&mut ir, &ctx, animal, text);
    assert!(is_empty_type(&ir, none));
    let low = lower_bound(&mut ir, &ctx, &[a, b, dog]);
    assert_eq!(low, dog);
}

#[test]
fn removal_leaves_the_other_alternatives() {
    let mut ir = Ir::new();
    let dog = name(&mut ir, "/animal/dog");
    let animal = name(&mut ir, "/animal");
    let num = name(&mut ir, "/number");
    let text = name(&mut ir, "/string");
    let all = apply(&mut ir, FN_UNION, vec![dog, num, text]);
    let rest = remove_from_union_type(&mut ir, animal, all);
    assert_eq!(union_type_args(&ir, rest).unwrap(), &[num, text]);
    assert_eq!(remove_from_union_type(&mut ir, num, rest), text);
    assert_eq!(remove_from_union_type(&mut ir, num, text), text);
    let nothing = remove_from_union_type(&mut ir, animal, dog);
    assert!(is_empty_type(&ir, nothing));
    let any = name(&mut ir, "/any");
    let nothing = remove_from_union_type(&mut ir, any, all);
    assert!(is_empty_type(&ir, nothing));
}

#[test]
fn base_types_of_constants() {
    let mut ir = Ir::new();
    let s = ir.intern_string("hi");
    let dog = name(&mut ir, "/animal/dog");
    let constants = vec![
        (number(&mut ir, 1), "/number"),
        (ir.add_inst(Inst::String(s)), "/string"),
        (ir.add_inst(Inst::Bool(true)), "/bool"),
        (ir.add_inst(Inst::Time(0)), "/time"),
        (ir.add_inst(Inst::Duration(0)), "/duration"),
        (dog, "/name"),
        (dog, "/animal"),
    ];
    let wrong = name(&mut ir, "/bytes");
    for (c, base) in constants {
        let t = name(&mut ir, base);
        assert!(const_has_base_type(&ir, c, t));
        assert!(!const_has_base_type(&ir, c, wrong));
    }
    assert!(name_under("/a/b", "/a"));
    assert!(name_under("/a", "/a"));
    assert!(!name_under("/ab", "/a"));
    let one = number(&mut ir, 1);
    let again = number(&mut ir, 1);
    let two = number(&mut ir, 2);
    assert!(ir_eq(&ir, one, again));
    assert!(!ir_eq(&ir, one, two));
    let num = name(&mut ir, "/number");
    assert!(is_base_type(&ir, num));
    assert!(!is_base_type(&ir, dog));
}

#[test]
fn fields_are_found_in_all_alternatives() {
    let mut ir = Ir::new();
    let ctx = TypeContext::new();
    let tu = moves(&mut ir);
    let num = name(&mut ir, "/number");
    let text = name(&mut ir, "/string");
    let x = ir.intern_name("/x");
    let kind = ir.intern_name("/kind");
    let y = ir.intern_name("/y");
    // The field of a variant.
    let t = struct_type_field_deep(&mut ir, tu, x).unwrap();
    assert!(set_conforms(&ir, &ctx, t, num) && set_conforms(&ir, &ctx, num, t));
    // The tag field holds one of the tags.
    let t = struct_type_field_deep(&mut ir, tu, kind).unwrap();
    assert_eq!(union_type_args(&ir, t).unwrap().len(), 2);
    let go = name(&mut ir, "/move");
    assert!(has_type(&ir, t, go));
    assert_eq!(struct_type_field_deep(&mut ir, tu, y), None);
    // A field of a union is one of every alternative.
    let field = ir.add_inst(Inst::Name(x));
    let a = new_struct_type(&mut ir, vec![field, num]);
    let b = new_struct_type(&mut ir, vec![field, text]);
    let c = new_struct_type(&mut ir, vec![]);
    let ab = apply(&mut ir, FN_UNION, vec![a, b]);
    let t = struct_type_field_deep(&mut ir, ab, x).unwrap();
    assert_eq!(union_type_args(&ir, t).unwrap(), &[num, text]);
    let ac = apply(&mut ir, FN_UNION, vec![a, c]);
    assert_eq!(struct_type_field_deep(&mut ir, ac, x), None);
    assert_eq!(struct_type_field(&ir, a, x), Some(num));
    assert_eq!(struct_type_field(&ir, c, x), None);
}

#[test]
fn parts_of_types() {
    let mut ir = Ir::new();
    let num = name(&mut ir, "/number");
    let text = name(&mut ir, "/string");
    let list = new_list_type(&mut ir, num);
    assert_eq!(list_type_arg(&ir, list), Some(num));
    assert_eq!(list_type_arg(&ir, num), None);
    let map = new_map_type(&mut ir, num, text);
    assert_eq!(map_type_args(&ir, map), Some((num, text)));
    let x = name(&mut ir, "/x");
    let y = name(&mut ir, "/y");
    let opt = apply(&mut ir, FN_OPT, vec![y, text]);
    let s = new_struct_type(&mut ir, vec![x, num, opt]);
    assert_eq!(struct_type_fields(&ir, s), vec![(x, num, false), (y, text, true)]);
    let tu = moves(&mut ir);
    assert_eq!(tagged_union_variants(&ir, tu).unwrap().0.len(), 2);
    assert!(tagged_union_tag_field(&ir, tu).is_some());
    let single = new_tuple_type(&mut ir, vec![num]);
    let double = new_tuple_type(&mut ir, vec![num, text]);
    assert_ne!(single, double);
    // The empty type and names are kept once.
    let e = empty_type(&mut ir);
    assert_eq!(empty_type(&mut ir), e);
    assert_eq!(find_or_create_name(&mut ir, "/number"), num);
}

#[test]
fn types_of_relations() {
    let mut ir = Ir::new();
    let num = name(&mut ir, "/number");
    let text = name(&mut ir, "/string");
    let first = new_rel_type(&mut ir, &[num]);
    let second = new_rel_type(&mut ir, &[text]);
    assert_eq!(rel_type_from_alternatives(&mut ir, vec![first]), first);
    let both = rel_type_from_alternatives(&mut ir, vec![first, second]);
    assert_eq!(rel_type_alternatives(&ir, both), vec![first, second]);
    assert_eq!(rel_type_alternatives(&ir, first), vec![first]);
    let none = rel_type_from_alternatives(&mut ir, vec![]);
    assert!(is_empty_type(&ir, none));
    let bound = ir.add_inst(Inst::BoundDecl { base_terms: vec![num, text] });
    let declared = rel_types_from_decl(&mut ir, &[bound]);
    assert_eq!(declared.len(), 1);
}

#[test]
fn variables_are_replaced() {
    let mut ir = Ir::new();
    let num = name(&mut ir, "/number");
    let t = var(&mut ir, "T");
    let u = var(&mut ir, "U");
    let list = new_list_type(&mut ir, t);
    let map = new_map_type(&mut ir, list, u);
    let mut vars = Vec::new();
    collect_vars(&ir, map, &mut vars);
    let (tn, un) = (ir.intern_name("T"), ir.intern_name("U"));
    assert_eq!(vars, vec![tn, un]);
    let mut subst = NameMap::new();
    subst.insert(tn, num);
    let replaced = apply_subst(&mut ir, map, &subst);
    let (key, value) = map_type_args(&ir, replaced).unwrap();
    assert_eq!(list_type_arg(&ir, key), Some(num));
    assert_eq!(value, u);
    // Where nothing is replaced, the type stays.
    assert_eq!(apply_subst(&mut ir, num, &subst), num);
    let ctx = get_type_context(&mut ir, map);
    assert!(is_any(&ir, *ctx.get(tn).unwrap()));
    assert!(is_any(&ir, *ctx.get(un).unwrap()));
}

#[test]
fn a_name_in_a_trie_is_its_own_prefix() {
    let mut trie = NameTrie::new();
    for n in ["/animal", "/animal/dog", "/color/red"] {
        trie.add(n);
    }
    for n in ["/animal", "/animal/dog", "/color/red"] {
        assert_eq!(trie.prefix_name(n), n);
    }
    assert_eq!(trie.prefix_name("/animal/dog/rex"), "/animal/dog");
    assert_eq!(trie.prefix_name("/animal/cat"), "/animal");
    assert_eq!(trie.prefix_name("/color"), "/name");
}

#[test]
fn ranges_of_variables_narrow() {
    let mut ir = Ir::new();
    let num = name(&mut ir, "/number");
    let text = name(&mut ir, "/string");
    let both = apply(&mut ir, FN_UNION, vec![num, text]);
    let x = ir.intern_name("X");
    let mut st = InferState::new();
    assert_eq!(st.lookup(x), None);
    st.add_or_refine_with_ir(&mut ir, x, both);
    assert_eq!(st.lookup(x), Some(both));
    st.add_or_refine_with_ir(&mut ir, x, num);
    assert_eq!(st.lookup(x), Some(num));
    // What has nothing in common leaves the range.
    st.add_or_refine_with_ir(&mut ir, x, text);
    assert_eq!(st.lookup(x), Some(num));
    st.set_var(x, text);
    assert_eq!(st.lookup(x), Some(text));
    let trie = NameTrie::new();
    let arg = var(&mut ir, "X");
    assert_eq!(bound_of_arg(&mut ir, &trie, &st, arg), text);
}

#[test]
fn a_tagged_union_is_told_by_its_tag() {
    let mut ir = Ir::new();
    let ctx = TypeContext::new();
    let kind = name(&mut ir, "/kind");
    let go = name(&mut ir, "/move");
    let x = name(&mut ir, "/x");
    let num = name(&mut ir, "/number");
    let any_name = name(&mut ir, "/name");
    let text = name(&mut ir, "/string");
    let bare = apply(&mut ir, FN_STRUCT, vec![x, num]);
    let tu = apply(&mut ir, FN_TAGGED_UNION, vec![kind, go, bare]);
    // A struct without the tag field is none of the variants.
    assert!(!set_conforms(&ir, &ctx, bare, tu));
    // Every variant has the tag field, and a tag is a name.
    let tagged = apply(&mut ir, FN_STRUCT, vec![kind, any_name]);
    assert!(set_conforms(&ir, &ctx, tu, tagged));
    let wrong = apply(&mut ir, FN_STRUCT, vec![kind, text]);
    assert!(!set_conforms(&ir, &ctx, tu, wrong));
    assert!(set_conforms(&ir, &ctx, tu, bare));
    let both = apply(&mut ir, FN_STRUCT, vec![kind, any_name, x, num]);
    assert!(set_conforms(&ir, &ctx, both, tu) && set_conforms(&ir, &ctx, tu, both));
    // What it expands to says which name the tag is, and conforms to it.
    let expanded = expand_tagged_union_type(&mut ir, tu).unwrap();
    assert!(set_conforms(&ir, &ctx, expanded, tu));
    assert!(!set_conforms(&ir, &ctx, tu, expanded));
}

#[test]
fn the_only_values_of_two_types_are_told_apart() {
    let mut ir = Ir::new();
    let ctx = TypeContext::new();
    let go = name(&mut ir, "/move");
    let first = apply(&mut ir, FN_SINGLETON, vec![go]);
    let second = apply(&mut ir, FN_SINGLETON, vec![go]);
    let any_name = name(&mut ir, "/name");
    assert!(set_conforms(&ir, &ctx, first, first));
    assert!(!set_conforms(&ir, &ctx, first, second));
    assert!(set_conforms(&ir, &ctx, first, any_name) && set_conforms(&ir, &ctx, first, go));
}

#[test]
fn unions_in_unions_meet_below_both() {
    let mut ir = Ir::new();
    let ctx = TypeContext::new();
    let num = name(&mut ir, "/number");
    let text = name(&mut ir, "/string");
    let time = name(&mut ir, "/time");
    let any = name(&mut ir, "/any");
    let inner = apply(&mut ir, FN_UNION, vec![num, text]);
    let a = apply(&mut ir, FN_UNION, vec![inner, time]);
    let other = apply(&mut ir, FN_UNION, vec![text, time]);
    let b = apply(&mut ir, FN_UNION, vec![other]);
    let met = intersect_type(&mut ir, &ctx, a, b);
    assert!(!is_empty_type(&ir, met));
    assert!(set_conforms(&ir, &ctx, met, a) && set_conforms(&ir, &ctx, met, b));
    assert!(!set_conforms(&ir, &ctx, num, met));
    // With `/any` it is the other type, and with a wider type it is the narrower one.
    assert_eq!(intersect_type(&mut ir, &ctx, a, any), a);
    assert_eq!(intersect_type(&mut ir, &ctx, any, a), a);
    let narrow = intersect_type(&mut ir, &ctx, inner, a);
    assert!(set_conforms(&ir, &ctx, narrow, inner) && set_conforms(&ir, &ctx, inner, narrow));
}

#[test]
fn conformance_goes_on_from_type_to_type() {
    let mut ir = Ir::new();
    let ctx = TypeContext::new();
    let dog = name(&mut ir, "/animal/dog");
    let animal = name(&mut ir, "/animal");
    let any_name = name(&mut ir, "/name");
    assert!(set_conforms(&ir, &ctx, dog, animal) && set_conforms(&ir, &ctx, animal, any_name));
    assert!(set_conforms(&ir, &ctx, dog, any_name));
    let num = name(&mut ir, "/number");
    let narrow = new_list_type(&mut ir, dog);
    let middle = new_list_type(&mut ir, animal);
    let either = apply(&mut ir, FN_UNION, vec![any_name, num]);
    let wide = new_list_type(&mut ir, either);
    assert!(set_conforms(&ir, &ctx, narrow, middle) && set_conforms(&ir, &ctx, middle, wide));
    assert!(set_conforms(&ir, &ctx, narrow, wide));
    let ub = upper_bound(&mut ir, &ctx, &[narrow, wide, middle]);
    assert_eq!(ub, wide);
    // Nothing to bound is empty, and `/any` bounds everything.
    let none = upper_bound(&mut ir, &ctx, &[]);
    assert!(is_empty_type(&ir, none));
    let any = name(&mut ir, "/any");
    assert_eq!(upper_bound(&mut ir, &ctx, &[dog, any]), any);
    // Two kinds of values lie below `/any`, and `/any` below `/name`, which they do not.
    assert!(set_conforms(&ir, &ctx, narrow, any) && set_conforms(&ir, &ctx, any, any_name));
    assert!(!set_conforms(&ir, &ctx, narrow, any_name));
}

#[test]
fn a_struct_value_has_its_fields() {
    let mut ir = Ir::new();
    let x = name(&mut ir, "/x");
    let y = name(&mut ir, "/y");
    let num = name(&mut ir, "/number");
    let text = name(&mut ir, "/string");
    let maybe = apply(&mut ir, "fn:opt", vec![y, text]);
    let t = apply(&mut ir, FN_STRUCT, vec![x, num, maybe]);
    let one = number(&mut ir, 1);
    let word_id = ir.intern_string("a");
    let word = ir.add_inst(Inst::String(word_id));
    let whole = structure(&mut ir, vec![("/x", one), ("/y", word)]);
    let without = structure(&mut ir, vec![("/x", one)]);
    let lacking = structure(&mut ir, vec![("/y", word)]);
    let further = structure(&mut ir, vec![("/x", one), ("/z", one)]);
    let wrong = structure(&mut ir, vec![("/x", word)]);
    let twice = structure(&mut ir, vec![("/x", word), ("/x", one)]);
    assert!(has_type(&ir, t, whole) && has_type(&ir, t, without));
    assert!(!has_type(&ir, t, lacking) && !has_type(&ir, t, further) && !has_type(&ir, t, wrong));
    // Of a field that is named twice the last place counts.
    assert!(has_type(&ir, t, twice));
}

#[test]
fn an_upper_bound_drops_every_type_that_it_covers() {
    let mut ir = Ir::new();
    let ctx = TypeContext::new();
    let dog = name(&mut ir, "/animal/dog");
    let cat = name(&mut ir, "/animal/cat");
    let animal = name(&mut ir, "/animal");
    assert_eq!(upper_bound(&mut ir, &ctx, &[dog, cat, animal]), animal);
    assert_eq!(upper_bound(&mut ir, &ctx, &[animal, dog, cat]), animal);
    let num = name(&mut ir, "/number");
    let ub = upper_bound(&mut ir, &ctx, &[dog, num, cat, animal]);
    assert_eq!(union_type_args(&ir, ub).unwrap().len(), 2);
}

#[test]
fn tagged_unions_meet_below_both() {
    let mut ir = Ir::new();
    let ctx = TypeContext::new();
    let tu = moves(&mut ir);
    let num = name(&mut ir, "/number");
    let text = name(&mut ir, "/string");
    let a = apply(&mut ir, FN_UNION, vec![tu, num]);
    let b = apply(&mut ir, FN_UNION, vec![text, tu]);
    let met = intersect_type(&mut ir, &ctx, a, b);
    assert!(!is_empty_type(&ir, met));
    assert!(set_conforms(&ir, &ctx, met, a));
    assert!(set_conforms(&ir, &ctx, met, b));
}

#[test]
fn both_writings_of_a_value_have_the_same_types() {
    let mut ir = Ir::new();
    let tu = moves(&mut ir);
    let kind = name(&mut ir, "/kind");
    let go = name(&mut ir, "/move");
    let x = name(&mut ir, "/x");
    let num = name(&mut ir, "/number");
    let any_name = name(&mut ir, "/name");
    let one = number(&mut ir, 1);
    let literal = structure(&mut ir, vec![("/kind", go), ("/x", one)]);
    let applied = apply(&mut ir, "fn:struct", vec![kind, go, x, one]);
    let whole = apply(&mut ir, FN_STRUCT, vec![kind, any_name, x, num]);
    let list = new_list_type(&mut ir, num);
    let option = apply(&mut ir, FN_OPTION, vec![whole]);
    let either = apply(&mut ir, FN_UNION, vec![list, tu]);
    for (t, holds) in [(tu, true), (whole, true), (list, false), (option, true), (either, true), (num, false)] {
        assert_eq!(has_type(&ir, t, literal), holds);
        assert_eq!(has_type(&ir, t, applied), holds);
    }
    let items = ir.add_inst(Inst::List(vec![one, one]));
    let call = apply(&mut ir, "fn:list", vec![one, one]);
    assert!(has_type(&ir, list, items) && has_type(&ir, list, call));
}
