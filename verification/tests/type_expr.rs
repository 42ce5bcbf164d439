//! Types: well-formedness, conformance, values of types, bounds.
use mangle::conform::set_conforms;
use mangle::has_type::has_type;
use mangle::ir::{Inst, InstId, Ir};
use mangle::type_bounds::{intersect_type, lower_bound, upper_bound};
use mangle::type_expr::{
    is_any, is_empty_type, is_struct_type, is_union_type, union_type_args, TypeContext, FN_LIST, FN_SINGLETON, FN_STRUCT,
    FN_TAGGED_UNION, FN_UNION,
};
use mangle::type_ops::expand_tagged_union_type;
use mangle::wellformed::wellformed_type;

fn make_name(ir: &mut Ir, s: &str) -> InstId {
    let n = ir.intern_name(s);
    ir.add_inst(Inst::Name(n))
}

fn make_apply(ir: &mut Ir, fn_name: &str, args: Vec<InstId>) -> InstId {
    let n = ir.intern_name(fn_name);
    ir.add_inst(Inst::ApplyFn {
        function: n,
        args,
    })
}

// -- Wellformedness tests --

#[test]
fn wellformed_base_types() {
    let mut ir = Ir::new();
    let ctx = TypeContext::new();
    let num = make_name(&mut ir, "/number");
    let str_ = make_name(&mut ir, "/string");
    let any = make_name(&mut ir, "/any");
    assert!(wellformed_type(&ir, &ctx, num).is_ok());
    assert!(wellformed_type(&ir, &ctx, str_).is_ok());
    assert!(wellformed_type(&ir, &ctx, any).is_ok());
}

#[test]
fn wellformed_struct() {
    let mut ir = Ir::new();
    let ctx = TypeContext::new();
    let x = make_name(&mut ir, "/x");
    let num = make_name(&mut ir, "/number");
    let y = make_name(&mut ir, "/y");
    let str_ = make_name(&mut ir, "/string");
    let s = make_apply(&mut ir, FN_STRUCT, vec![x, num, y, str_]);
    assert!(wellformed_type(&ir, &ctx, s).is_ok());
}

#[test]
fn wellformed_struct_odd_args() {
    let mut ir = Ir::new();
    let ctx = TypeContext::new();
    let x = make_name(&mut ir, "/x");
    let num = make_name(&mut ir, "/number");
    let y = make_name(&mut ir, "/y");
    // Odd number of args without fn:opt.
    let s = make_apply(&mut ir, FN_STRUCT, vec![x, num, y]);
    assert!(wellformed_type(&ir, &ctx, s).is_err());
}

#[test]
fn wellformed_tagged_union() {
    let mut ir = Ir::new();
    let ctx = TypeContext::new();
    let kind = make_name(&mut ir, "/kind");
    let move_ = make_name(&mut ir, "/move");
    let x = make_name(&mut ir, "/x");
    let num = make_name(&mut ir, "/number");
    let move_struct = make_apply(&mut ir, FN_STRUCT, vec![x, num]);
    let quit = make_name(&mut ir, "/quit");
    let quit_struct = make_apply(&mut ir, FN_STRUCT, vec![]);
    let tu = make_apply(
        &mut ir,
        FN_TAGGED_UNION,
        vec![kind, move_, move_struct, quit, quit_struct],
    );
    assert!(wellformed_type(&ir, &ctx, tu).is_ok());
}

#[test]
fn wellformed_tagged_union_negative_too_few_args() {
    let mut ir = Ir::new();
    let ctx = TypeContext::new();
    let kind = make_name(&mut ir, "/kind");
    let tu = make_apply(&mut ir, FN_TAGGED_UNION, vec![kind]);
    assert!(wellformed_type(&ir, &ctx, tu).is_err());
}

#[test]
fn wellformed_tagged_union_negative_even_args() {
    let mut ir = Ir::new();
    let ctx = TypeContext::new();
    let kind = make_name(&mut ir, "/kind");
    let move_ = make_name(&mut ir, "/move");
    let move_struct = make_apply(&mut ir, FN_STRUCT, vec![]);
    let quit = make_name(&mut ir, "/quit");
    // 4 args (even) is invalid.
    let tu = make_apply(
        &mut ir,
        FN_TAGGED_UNION,
        vec![kind, move_, move_struct, quit],
    );
    assert!(wellformed_type(&ir, &ctx, tu).is_err());
}

#[test]
fn wellformed_tagged_union_negative_dup_tags() {
    let mut ir = Ir::new();
    let ctx = TypeContext::new();
    let kind = make_name(&mut ir, "/kind");
    let move_ = make_name(&mut ir, "/move");
    let s1 = make_apply(&mut ir, FN_STRUCT, vec![]);
    let move2 = make_name(&mut ir, "/move");
    let s2 = make_apply(&mut ir, FN_STRUCT, vec![]);
    let tu = make_apply(
        &mut ir,
        FN_TAGGED_UNION,
        vec![kind, move_, s1, move2, s2],
    );
    assert!(wellformed_type(&ir, &ctx, tu).is_err());
}

#[test]
fn wellformed_tagged_union_negative_tag_field_in_variant() {
    let mut ir = Ir::new();
    let ctx = TypeContext::new();
    let kind = make_name(&mut ir, "/kind");
    let move_ = make_name(&mut ir, "/move");
    // Variant struct has /kind field — disallowed.
    let kind2 = make_name(&mut ir, "/kind");
    let num = make_name(&mut ir, "/number");
    let s = make_apply(&mut ir, FN_STRUCT, vec![kind2, num]);
    let tu = make_apply(&mut ir, FN_TAGGED_UNION, vec![kind, move_, s]);
    assert!(wellformed_type(&ir, &ctx, tu).is_err());
}

// -- Conformance tests --

#[test]
fn conforms_base_types() {
    let mut ir = Ir::new();
    let ctx = TypeContext::new();
    let num = make_name(&mut ir, "/number");
    let any = make_name(&mut ir, "/any");
    let str_ = make_name(&mut ir, "/string");

    assert!(set_conforms(&ir, &ctx, num, any));
    assert!(set_conforms(&ir, &ctx, num, num));
    assert!(!set_conforms(&ir, &ctx, num, str_));
}

#[test]
fn conforms_name_hierarchy() {
    let mut ir = Ir::new();
    let ctx = TypeContext::new();
    let foo = make_name(&mut ir, "/foo");
    let foo_bar = make_name(&mut ir, "/foo/bar");
    let name = make_name(&mut ir, "/name");

    assert!(set_conforms(&ir, &ctx, foo_bar, foo));
    assert!(set_conforms(&ir, &ctx, foo, name));
    assert!(set_conforms(&ir, &ctx, foo_bar, name));
    assert!(!set_conforms(&ir, &ctx, foo, foo_bar));
}

#[test]
fn conforms_singleton() {
    let mut ir = Ir::new();
    let ctx = TypeContext::new();
    let move_ = make_name(&mut ir, "/move");
    let singleton = make_apply(&mut ir, FN_SINGLETON, vec![move_]);
    let name = make_name(&mut ir, "/name");
    let num = make_name(&mut ir, "/number");

    assert!(set_conforms(&ir, &ctx, singleton, name));
    assert!(!set_conforms(&ir, &ctx, singleton, num));
}

#[test]
fn conforms_union() {
    let mut ir = Ir::new();
    let ctx = TypeContext::new();
    let num = make_name(&mut ir, "/number");
    let str_ = make_name(&mut ir, "/string");
    let union = make_apply(&mut ir, FN_UNION, vec![num, str_]);

    // Union conforms to /any.
    let any = make_name(&mut ir, "/any");
    assert!(set_conforms(&ir, &ctx, union, any));
    // Number conforms to Union<number, string>.
    assert!(set_conforms(&ir, &ctx, num, union));
    // Union<number, string> does NOT conform to /number.
    assert!(!set_conforms(&ir, &ctx, union, num));
}

#[test]
fn conforms_struct_subtyping() {
    let mut ir = Ir::new();
    let ctx = TypeContext::new();
    // .Struct</x: /number, /y: /string>
    let x = make_name(&mut ir, "/x");
    let num = make_name(&mut ir, "/number");
    let y = make_name(&mut ir, "/y");
    let str_ = make_name(&mut ir, "/string");
    let wider = make_apply(&mut ir, FN_STRUCT, vec![x, num, y, str_]);
    // .Struct</x: /number>
    let x2 = make_name(&mut ir, "/x");
    let num2 = make_name(&mut ir, "/number");
    let narrower = make_apply(&mut ir, FN_STRUCT, vec![x2, num2]);

    // Wider (more fields) conforms to narrower.
    assert!(set_conforms(&ir, &ctx, wider, narrower));
    // Narrower does NOT conform to wider (missing required /y).
    assert!(!set_conforms(&ir, &ctx, narrower, wider));
}

#[test]
fn conforms_list() {
    let mut ir = Ir::new();
    let ctx = TypeContext::new();
    let num = make_name(&mut ir, "/number");
    let any = make_name(&mut ir, "/any");
    let list_num = make_apply(&mut ir, FN_LIST, vec![num]);
    let list_any = make_apply(&mut ir, FN_LIST, vec![any]);

    assert!(set_conforms(&ir, &ctx, list_num, list_any));
    assert!(!set_conforms(&ir, &ctx, list_any, list_num));
}

// -- HasType tests --

#[test]
fn has_type_base() {
    let mut ir = Ir::new();
    let num_type = make_name(&mut ir, "/number");
    let str_type = make_name(&mut ir, "/string");
    let val_42 = ir.add_inst(Inst::Number(42));
    let val_hello = {
        let s = ir.intern_string("hello");
        ir.add_inst(Inst::String(s))
    };

    assert!(has_type(&ir, num_type, val_42));
    assert!(!has_type(&ir, str_type, val_42));
    assert!(has_type(&ir, str_type, val_hello));
}

#[test]
fn has_type_struct() {
    let mut ir = Ir::new();
    // Type: .Struct</x: /number>
    let x_name = make_name(&mut ir, "/x");
    let num_type = make_name(&mut ir, "/number");
    let struct_type = make_apply(&mut ir, FN_STRUCT, vec![x_name, num_type]);

    // Value: {/x: 42}
    let x_field = ir.intern_name("/x");
    let val_42 = ir.add_inst(Inst::Number(42));
    let val_struct = ir.add_inst(Inst::Struct {
        fields: vec![x_field],
        values: vec![val_42],
    });

    assert!(has_type(&ir, struct_type, val_struct));
}

#[test]
fn has_type_tagged_union() {
    let mut ir = Ir::new();

    // TaggedUnion</kind, /move: .Struct</x: /number>, /quit: .Struct<>>
    let kind = make_name(&mut ir, "/kind");
    let move_tag = make_name(&mut ir, "/move");
    let x_name = make_name(&mut ir, "/x");
    let num_type = make_name(&mut ir, "/number");
    let move_struct = make_apply(&mut ir, FN_STRUCT, vec![x_name, num_type]);
    let quit_tag = make_name(&mut ir, "/quit");
    let quit_struct = make_apply(&mut ir, FN_STRUCT, vec![]);
    let tu = make_apply(
        &mut ir,
        FN_TAGGED_UNION,
        vec![kind, move_tag, move_struct, quit_tag, quit_struct],
    );

    // Value: {/kind: /move, /x: 10}
    let kind_f = ir.intern_name("/kind");
    let move_v = ir.intern_name("/move");
    let move_val = ir.add_inst(Inst::Name(move_v));
    let x_f = ir.intern_name("/x");
    let val_10 = ir.add_inst(Inst::Number(10));
    let val_move = ir.add_inst(Inst::Struct {
        fields: vec![kind_f, x_f],
        values: vec![move_val, val_10],
    });
    assert!(has_type(&ir, tu, val_move));

    // Value: {/kind: /quit}
    let kind_f2 = ir.intern_name("/kind");
    let quit_v = ir.intern_name("/quit");
    let quit_val = ir.add_inst(Inst::Name(quit_v));
    let val_quit = ir.add_inst(Inst::Struct {
        fields: vec![kind_f2],
        values: vec![quit_val],
    });
    assert!(has_type(&ir, tu, val_quit));

    // Value: {/kind: /bad}
    let kind_f3 = ir.intern_name("/kind");
    let bad_v = ir.intern_name("/bad");
    let bad_val = ir.add_inst(Inst::Name(bad_v));
    let val_bad = ir.add_inst(Inst::Struct {
        fields: vec![kind_f3],
        values: vec![bad_val],
    });
    assert!(!has_type(&ir, tu, val_bad));
}

#[test]
fn has_type_struct_accepts_applyfn_shape() {
    // `fn:struct(/x, 42, /y, "hi")` (ApplyFn form — what the parser emits
    // for `{/x: 42, /y: "hi"}`) must satisfy .Struct</x: /number, /y: /string>.
    let mut ir = Ir::new();
    let x = make_name(&mut ir, "/x");
    let y = make_name(&mut ir, "/y");
    let num = make_name(&mut ir, "/number");
    let str_ = make_name(&mut ir, "/string");
    let stype = make_apply(&mut ir, FN_STRUCT, vec![x, num, y, str_]);

    let x_v = make_name(&mut ir, "/x");
    let y_v = make_name(&mut ir, "/y");
    let n = ir.add_inst(Inst::Number(42));
    let sid = ir.intern_string("hi");
    let s = ir.add_inst(Inst::String(sid));
    let value = make_apply(&mut ir, "fn:struct", vec![x_v, n, y_v, s]);
    assert!(has_type(&ir, stype, value));
}

#[test]
fn has_type_list_accepts_applyfn_shape() {
    // `fn:list(1, 2, 3)` (ApplyFn form) must satisfy fn:List(/number).
    let mut ir = Ir::new();
    let num = make_name(&mut ir, "/number");
    let list_num = make_apply(&mut ir, FN_LIST, vec![num]);
    let n1 = ir.add_inst(Inst::Number(1));
    let n2 = ir.add_inst(Inst::Number(2));
    let n3 = ir.add_inst(Inst::Number(3));
    let value = make_apply(&mut ir, "fn:list", vec![n1, n2, n3]);
    assert!(has_type(&ir, list_num, value));
}

#[test]
fn conforms_tagged_union_identity() {
    // Two structurally-identical TaggedUnion types (different IR ids,
    // same tag field + variants) must conform to each other.
    let mut ir = Ir::new();
    let ctx = TypeContext::new();
    let build = |ir: &mut Ir| {
        let t = make_name(ir, "/type");
        let c = make_name(ir, "/create");
        let name_f = make_name(ir, "/name");
        let str_ = make_name(ir, "/string");
        let create_s = make_apply(ir, FN_STRUCT, vec![name_f, str_]);
        let p = make_name(ir, "/ping");
        let ping_s = make_apply(ir, FN_STRUCT, vec![]);
        make_apply(ir, FN_TAGGED_UNION, vec![t, c, create_s, p, ping_s])
    };
    let tu1 = build(&mut ir);
    let tu2 = build(&mut ir);
    assert!(set_conforms(&ir, &ctx, tu1, tu2));
}

// -- Expansion tests --

#[test]
fn expand_tagged_union() {
    let mut ir = Ir::new();
    let kind = make_name(&mut ir, "/kind");
    let move_ = make_name(&mut ir, "/move");
    let x = make_name(&mut ir, "/x");
    let num = make_name(&mut ir, "/number");
    let move_struct = make_apply(&mut ir, FN_STRUCT, vec![x, num]);
    let quit = make_name(&mut ir, "/quit");
    let quit_struct = make_apply(&mut ir, FN_STRUCT, vec![]);
    let tu = make_apply(
        &mut ir,
        FN_TAGGED_UNION,
        vec![kind, move_, move_struct, quit, quit_struct],
    );

    let expanded = expand_tagged_union_type(&mut ir, tu).unwrap();
    assert!(is_union_type(&ir, expanded));
    let alts = union_type_args(&ir, expanded).unwrap();
    assert_eq!(alts.len(), 2);
    // First variant should be a struct with /kind, Singleton(/move), /x, /number.
    assert!(is_struct_type(&ir, alts[0]));
    // Second variant should be a struct with /kind, Singleton(/quit).
    assert!(is_struct_type(&ir, alts[1]));
}

// -- UpperBound / LowerBound tests --

#[test]
fn upper_bound_basic() {
    let mut ir = Ir::new();
    let ctx = TypeContext::new();
    let num = make_name(&mut ir, "/number");
    let str_ = make_name(&mut ir, "/string");

    // UpperBound of [/number] = /number.
    assert_eq!(upper_bound(&mut ir, &ctx, &[num]), num);
    // UpperBound of [/number, /string] = fn:Union(/number, /string).
    let ub = upper_bound(&mut ir, &ctx, &[num, str_]);
    assert!(is_union_type(&ir, ub));
    // UpperBound of [] = EmptyType.
    let ub_empty = upper_bound(&mut ir, &ctx, &[]);
    assert!(is_empty_type(&ir, ub_empty));
}

#[test]
fn upper_bound_eliminates_redundant() {
    let mut ir = Ir::new();
    let ctx = TypeContext::new();
    let num = make_name(&mut ir, "/number");
    let any = make_name(&mut ir, "/any");

    // UpperBound([/number, /any]) = /any.
    let ub = upper_bound(&mut ir, &ctx, &[num, any]);
    assert!(is_any(&ir, ub));
}

#[test]
fn upper_bound_name_hierarchy() {
    let mut ir = Ir::new();
    let ctx = TypeContext::new();
    let animal = make_name(&mut ir, "/animal");
    let animal_dog = make_name(&mut ir, "/animal/dog");

    // /animal/dog <: /animal, so UpperBound = /animal.
    let ub = upper_bound(&mut ir, &ctx, &[animal, animal_dog]);
    assert_eq!(ub, animal);
}

#[test]
fn lower_bound_basic() {
    let mut ir = Ir::new();
    let ctx = TypeContext::new();
    let num = make_name(&mut ir, "/number");
    let any = make_name(&mut ir, "/any");

    // LowerBound([/number, /any]) = /number.
    let lb = lower_bound(&mut ir, &ctx, &[num, any]);
    assert_eq!(lb, num);
}

#[test]
fn lower_bound_empty() {
    let mut ir = Ir::new();
    let ctx = TypeContext::new();
    let num = make_name(&mut ir, "/number");
    let str_ = make_name(&mut ir, "/string");

    // LowerBound([/number, /string]) = EmptyType (disjoint).
    let lb = lower_bound(&mut ir, &ctx, &[num, str_]);
    assert!(is_empty_type(&ir, lb));
}

#[test]
fn intersect_type_with_union() {
    let mut ir = Ir::new();
    let ctx = TypeContext::new();
    let num = make_name(&mut ir, "/number");
    let str_ = make_name(&mut ir, "/string");
    let union_ns = make_apply(&mut ir, FN_UNION, vec![num, str_]);

    // intersect(Union(/number, /string), /number) = /number.
    let result = intersect_type(&mut ir, &ctx, union_ns, num);
    assert_eq!(result, num);
}
